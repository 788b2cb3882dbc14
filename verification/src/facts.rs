//! What parsing, name resolution and type inference found out about a project.
use crate::flow::FlowGraph;
use crate::ids::{LocalRef, Resolved, Span, SymbolRef};
use crate::model::{ControlFlowScope, ReferenceAccess, SourceKind};
use crate::path::LogicalPath;
use crate::syntax::SyntaxNode;
use vstd::prelude::*;

verus! {

/// The path, the text and the syntax tree of a file.
#[derive(Debug)]
pub struct SourceText {
    pub path: String,
    pub source: String,
    pub root: SyntaxNode,
}

/// A place at which a file does not parse, in rows and columns of bytes.
#[derive(Debug)]
pub struct ParseError {
    pub start_row: usize,
    pub start_column: usize,
    pub end_row: usize,
    pub end_column: usize,
    /// Something is missing there, rather than not expected.
    pub missing: bool,
    pub message: String,
}

#[derive(Debug)]
pub struct ImportFact {
    pub path: String,
    pub span: Span,
    /// The file that is imported, where there is one.
    pub target: Option<u32>,
}

/// A contract, or one of its fields.
#[derive(Debug)]
pub struct FieldFact {
    pub name: String,
    pub name_span: Span,
    pub body_span: Span,
    pub doc: String,
}

#[derive(Debug)]
pub struct ContractFact {
    pub header: FieldFact,
    pub fields: Vec<FieldFact>,
}

/// What a symbol is declared as.
#[derive(Debug, Clone, Copy, PartialEq, Eq, Structural)]
pub enum SymbolKind {
    GlobalVariable,
    Function,
    Method { instance: bool },
    GetMethod,
    Struct,
    StructField,
    Enum,
    EnumMember,
    Constant,
    TypeAlias,
}

/// The value that a constant evaluates to.
#[derive(Debug)]
pub enum Evaluated {
    Int(String),
    Bool(bool),
    Text(String),
    Overflow,
    Unknown,
}

#[derive(Debug)]
pub struct ConstantFact {
    pub value: Evaluated,
    pub display: String,
}

/// A declared symbol.
#[derive(Debug)]
pub struct SymbolFact {
    pub id: SymbolRef,
    pub name: String,
    pub fqn: String,
    pub kind: SymbolKind,
    pub name_span: Span,
    pub body_span: Span,
    pub doc: String,
    pub deprecated: bool,
    pub pure: bool,
    pub private: bool,
    /// The path to the node that declares it.
    pub declaration: Option<Vec<usize>>,
    pub graph: Option<FlowGraph>,
    /// The value of a constant or an enum member.
    pub constant: Option<ConstantFact>,
    /// The number of its type.
    pub type_number: Option<u32>,
    /// The fields of a struct and the members of an enum.
    pub children: Vec<SymbolFact>,
}

/// What a local is defined as.
#[derive(Debug, Clone, Copy, PartialEq, Eq, Structural)]
pub enum LocalKind {
    Parameter { mutable: bool },
    Variable { mutable: bool },
    Catch,
    TypeParameter,
}

/// A local definition.
#[derive(Debug)]
pub struct LocalFact {
    pub id: LocalRef,
    pub name: String,
    pub kind: LocalKind,
    pub span: Span,
    /// The symbol in which it is defined.
    pub owner: Option<SymbolRef>,
}

/// In which namespace a name is looked up.
#[derive(Debug, Clone, Copy, PartialEq, Eq, Structural)]
pub enum NameKind {
    Value,
    LocalValue,
    Type,
    Mixed,
}

/// A use of a name.
#[derive(Debug)]
pub struct UseFact {
    pub name: String,
    pub span: Span,
    pub kind: NameKind,
    pub resolved: Resolved,
}

/// What name resolution found in a file.
#[derive(Debug)]
pub struct ResolvedFacts {
    pub locals: Vec<LocalFact>,
    pub uses: Vec<UseFact>,
}

/// How the use at a place accesses what it names.
#[derive(Debug)]
pub struct AccessFact {
    pub span: Span,
    pub access: ReferenceAccess,
}

#[derive(Debug, Clone, Copy)]
pub struct ExpressionFact {
    pub span: Span,
    pub type_number: u32,
}

/// What type inference found in the body of a declaration.
#[derive(Debug)]
pub struct BodyFacts {
    pub expressions: Vec<ExpressionFact>,
    pub uses: Vec<UseFact>,
}

/// A lambda expression.
#[derive(Debug)]
pub struct LambdaFact {
    pub span: Span,
    /// The symbol in which it stands.
    pub owner: Option<SymbolRef>,
    pub graph: Option<FlowGraph>,
}

/// The path to the node at a range of source text.
#[derive(Debug)]
pub struct LocatedFact {
    pub span: Span,
    pub path: Vec<usize>,
}

/// The local that is defined at an offset.
#[derive(Debug, Clone, Copy)]
pub struct LocalAt {
    pub offset: u32,
    pub local: LocalRef,
}

/// What is known of a file.
#[derive(Debug)]
pub struct FileFacts {
    pub id: u32,
    pub path: LogicalPath,
    pub text: SourceText,
    pub source_kind: SourceKind,
    pub errors: Vec<ParseError>,
    pub imports: Vec<ImportFact>,
    pub contract: Option<ContractFact>,
    pub symbols: Vec<SymbolFact>,
    pub resolved: Option<ResolvedFacts>,
    pub accesses: Vec<AccessFact>,
    pub bodies: Vec<BodyFacts>,
    pub lambdas: Vec<LambdaFact>,
    pub located: Vec<LocatedFact>,
    pub locals_at: Vec<LocalAt>,
}

/// What a type is.
#[derive(Debug)]
pub enum TypeData {
    Struct { name: String, symbol: SymbolRef, arguments: Vec<u32> },
    Enum { symbol: SymbolRef },
    TypeAlias { symbol: SymbolRef, inner: u32, arguments: Vec<u32> },
    Tensor(Vec<u32>),
    Tuple(Vec<u32>),
    Array(u32),
    Union(Vec<u32>),
    Function { parameters: Vec<u32>, result: u32 },
    TypeParameter,
    Generic { inner: u32, arguments: Vec<u32> },
    Builtin,
    Int,
    Bool,
    Cell,
    Slice,
    Builder,
    Continuation,
    Address,
    Mapping { key: u32, value: u32 },
    Bits,
    Bytes,
    UntypedTuple,
    Null,
    Void,
    Never,
    Auto,
    Undefined,
    Unknown,
}

/// A type, known by its position in the list of types.
#[derive(Debug)]
pub struct TypeFact {
    pub data: TypeData,
    pub display: String,
    /// The number of the type behind all aliases.
    pub unaliased: u32,
}

/// How grave a finding of the linter is.
#[derive(Debug, Clone, Copy, PartialEq, Eq, Structural)]
pub enum LintSeverity {
    Fatal,
    Error,
    Warning,
    Info,
    Help,
}

#[derive(Debug, Clone, Copy, PartialEq, Eq, Structural)]
pub enum LintTag {
    Unnecessary,
    Deprecated,
}

#[derive(Debug)]
pub struct LintAnnotation {
    pub span: Span,
    pub message: Option<String>,
    pub primary: bool,
    pub tags: Vec<LintTag>,
}

#[derive(Debug)]
pub struct LintEdit {
    pub file: u32,
    pub span: Span,
    pub replacement: String,
}

#[derive(Debug)]
pub struct LintFix {
    pub message: String,
    /// The fix can be applied without asking.
    pub automatic: bool,
    pub edits: Vec<LintEdit>,
}

/// A finding of the linter.
#[derive(Debug)]
pub struct LintFact {
    pub file: u32,
    pub severity: LintSeverity,
    pub code: Option<String>,
    pub message: String,
    pub help: Option<String>,
    pub annotations: Vec<LintAnnotation>,
    pub fixes: Vec<LintFix>,
}

/// What is known of a project.
#[derive(Debug)]
pub struct ProjectFacts {
    pub root: LogicalPath,
    pub files: Vec<FileFacts>,
    pub types: Vec<TypeFact>,
    pub errors: Vec<String>,
    pub lints: Vec<LintFact>,
    pub control_flow: ControlFlowScope,
}

/// The symbols that are declared inside a symbol.
pub open spec fn nested(symbol: SymbolFact) -> Seq<SymbolFact> {
    match symbol.kind {
        SymbolKind::Struct | SymbolKind::Enum => symbol.children@,
        _ => Seq::empty(),
    }
}

/// A symbol that can be called.
pub open spec fn is_callable(symbol: SymbolFact) -> bool {
    match symbol.kind {
        SymbolKind::Function | SymbolKind::Method { .. } | SymbolKind::GetMethod => true,
        _ => false,
    }
}

/// A symbol and the symbols inside it.
pub open spec fn with_nested(symbol: SymbolFact) -> Seq<SymbolFact>
    decreases symbol, nested(symbol).len() + 1,
{
    nested_from(symbol, 0, seq![symbol])
}

pub open spec fn nested_from(symbol: SymbolFact, i: int, acc: Seq<SymbolFact>) -> Seq<SymbolFact>
    decreases symbol, nested(symbol).len() - i,
{
    if 0 <= i < nested(symbol).len() {
        proof {
            lemma_nested(symbol, i);
        }
        nested_from(symbol, i + 1, acc + with_nested(nested(symbol)[i]))
    } else {
        acc
    }
}

pub proof fn lemma_nested(symbol: SymbolFact, i: int)
    requires
        0 <= i < nested(symbol).len(),
    ensures
        decreases_to!(symbol => nested(symbol)[i]),
{
    assert(decreases_to!(symbol => symbol.children));
    assert(decreases_to!(symbol.children => symbol.children@));
    assert(decreases_to!(symbol.children@ => symbol.children@[i]));
}

/// The symbols of a list from position `i` on, each with the symbols inside it.
pub open spec fn symbols_from(symbols: Seq<SymbolFact>, i: int, acc: Seq<SymbolFact>) -> Seq<
    SymbolFact,
>
    decreases symbols.len() - i,
{
    if 0 <= i < symbols.len() {
        symbols_from(symbols, i + 1, acc + with_nested(symbols[i]))
    } else {
        acc
    }
}

/// All symbols that a file declares.
pub open spec fn file_symbols(file: FileFacts) -> Seq<SymbolFact> {
    symbols_from(file.symbols@, 0, Seq::empty())
}

/// The symbols behind references.
pub open spec fn symbol_pointees(symbols: Seq<&SymbolFact>) -> Seq<SymbolFact> {
    Seq::new(symbols.len(), |i: int| *symbols[i])
}

fn collect_symbol<'a>(symbol: &'a SymbolFact, out: &mut Vec<&'a SymbolFact>)
    ensures
        symbol_pointees(final(out)@) == symbol_pointees(old(out)@) + with_nested(*symbol),
    decreases symbol,
{
    let ghost start = symbol_pointees(out@);
    out.push(symbol);
    let ghost mut acc = seq![*symbol];
    assert(symbol_pointees(out@) =~= start + acc);
    let has = match symbol.kind {
        SymbolKind::Struct | SymbolKind::Enum => true,
        _ => false,
    };
    if has {
        let n: usize = symbol.children.len();
        let mut i: usize = 0;
        while i < n
            invariant
                i <= n,
                n == symbol.children@.len(),
                nested(*symbol) == symbol.children@,
                symbol_pointees(out@) == start + acc,
                nested_from(*symbol, 0, seq![*symbol]) == nested_from(*symbol, i as int, acc),
            decreases n - i,
        {
            proof {
                lemma_nested(*symbol, i as int);
            }
            collect_symbol(&symbol.children[i], out);
            proof {
                let more = with_nested(symbol.children@[i as int]);
                assert(start + acc + more =~= start + (acc + more));
                acc = acc + more;
            }
            i += 1;
        }
    }
}

/// All symbols that a file declares.
pub fn all_global_symbols<'a>(file: &'a FileFacts) -> (r: Vec<&'a SymbolFact>)
    ensures
        symbol_pointees(r@) == file_symbols(*file),
{
    let mut out: Vec<&'a SymbolFact> = Vec::new();
    let n: usize = file.symbols.len();
    let mut i: usize = 0;
    assert(symbol_pointees(out@) =~= Seq::empty());
    while i < n
        invariant
            i <= n,
            n == file.symbols@.len(),
            symbols_from(file.symbols@, 0, Seq::empty()) == symbols_from(
                file.symbols@,
                i as int,
                symbol_pointees(out@),
            ),
        decreases n - i,
    {
        collect_symbol(&file.symbols[i], &mut out);
        i += 1;
    }
    out
}

impl SymbolFact {
    /// Whether the symbol can be called.
    pub fn is_callable(&self) -> (r: bool)
        ensures
            r == is_callable(*self),
    {
        match self.kind {
            SymbolKind::Function | SymbolKind::Method { .. } | SymbolKind::GetMethod => true,
            _ => false,
        }
    }
}

/// The first file from position `i` on with a number.
pub open spec fn file_from(files: Seq<FileFacts>, id: u32, i: int) -> Option<int>
    decreases files.len() - i,
{
    if 0 <= i < files.len() {
        if files[i].id == id {
            Some(i)
        } else {
            file_from(files, id, i + 1)
        }
    } else {
        None
    }
}

/// Each file of a list is found by its number.
pub proof fn lemma_own_file(files: Seq<FileFacts>, at: int)
    requires
        0 <= at < files.len(),
    ensures
        file_from(files, files[at].id, 0) is Some,
{
    lemma_file_ahead(files, at, 0);
}

/// The file that is found has the number.
pub proof fn lemma_found_file(files: Seq<FileFacts>, id: u32, i: int)
    requires
        0 <= i,
    ensures
        file_from(files, id, i) matches Some(at) ==> i <= at < files.len() && files[at].id == id,
    decreases files.len() - i,
{
    if i < files.len() && files[i].id != id {
        lemma_found_file(files, id, i + 1);
    }
}

proof fn lemma_file_ahead(files: Seq<FileFacts>, at: int, i: int)
    requires
        0 <= i <= at < files.len(),
    ensures
        file_from(files, files[at].id, i) is Some,
    decreases at - i,
{
    if i < at {
        lemma_file_ahead(files, at, i + 1);
    }
}

/// The first file with a number.
pub fn find_file(files: &Vec<FileFacts>, id: u32) -> (r: Option<usize>)
    ensures
        match r {
            Some(i) => i < files@.len() && file_from(files@, id, 0) == Some(i as int),
            None => file_from(files@, id, 0) is None,
        },
{
    let n: usize = files.len();
    let mut i: usize = 0;
    while i < n
        invariant
            i <= n,
            n == files@.len(),
            file_from(files@, id, 0) == file_from(files@, id, i as int),
        decreases n - i,
    {
        if files[i].id == id {
            return Some(i);
        }
        i += 1;
    }
    None
}

} // verus!
