// A reader for the small part of Tolk that the sources below are written in. It stands in for
// the parser, the resolver and the type checker: it turns source text into facts.
use std::collections::{BTreeMap, BTreeSet};
use tolk_inspect::facts::{
    AccessFact, BodyFacts, ConstantFact, Evaluated, ExpressionFact, FileFacts, ImportFact,
    LambdaFact, LintAnnotation, LintEdit, LintFact, LintFix, LintSeverity, LintTag, LocalAt,
    LocalFact, LocalKind, LocatedFact, NameKind, ParseError, ProjectFacts, ResolvedFacts,
    SourceText, SymbolFact, SymbolKind, TypeData, TypeFact, UseFact,
};
use tolk_inspect::flow::{EdgeKind, FlowEdge, FlowGraph, FlowKind, FlowNode};
use tolk_inspect::ids::{LocalRef, Resolved, Span, SymbolRef};
use tolk_inspect::inspect::{build, ProjectSnapshot};
use tolk_inspect::model::{
    ByteRange, CallSite, ConstantValue, ControlFlowScope, ReferenceAccess, SourceKind, SymbolInfo,
};
use tolk_inspect::path::normalize_path;
use tolk_inspect::project::{prepare, InspectError, ProjectInput};
use tolk_inspect::syntax::{IntLiteral, SyntaxNode};
use tolk_inspect::tables::Table;

#[derive(Clone, Copy, PartialEq)]
enum Kind {
    Word,
    Number,
    Text,
    Mark,
    End,
}

#[derive(Clone, Copy)]
struct Token {
    kind: Kind,
    start: usize,
    end: usize,
}

fn tokens(source: &str) -> Vec<Token> {
    let bytes = source.as_bytes();
    let mut out: Vec<Token> = Vec::new();
    let mut i: usize = 0;
    while i < bytes.len() {
        let start: usize = i;
        let b = bytes[i];
        if b.is_ascii_whitespace() {
            i += 1;
        } else if source[i..].starts_with("//") {
            while i < bytes.len() && bytes[i] != b'\n' {
                i += 1;
            }
        } else if source[i..].starts_with("/*") {
            while !source[i..].starts_with("*/") {
                i += 1;
                while !source.is_char_boundary(i) {
                    i += 1;
                }
            }
            i += 2;
        } else if b == b'"' {
            i += 1;
            while bytes[i] != b'"' {
                i += 1;
            }
            i += 1;
            out.push(Token { kind: Kind::Text, start, end: i });
        } else if b.is_ascii_digit() {
            if source[i..].starts_with("0x") {
                i += 2;
                while i < bytes.len() && bytes[i].is_ascii_hexdigit() {
                    i += 1;
                }
            }
            while i < bytes.len() && bytes[i].is_ascii_digit() {
                i += 1;
            }
            out.push(Token { kind: Kind::Number, start, end: i });
        } else if b.is_ascii_alphabetic() || b == b'_' {
            while i < bytes.len() && (bytes[i].is_ascii_alphanumeric() || bytes[i] == b'_') {
                i += 1;
            }
            out.push(Token { kind: Kind::Word, start, end: i });
        } else {
            let two = ["->", "<<", "-=", "+="];
            i += if two.iter().any(|mark| source[i..].starts_with(mark)) { 2 } else { 1 };
            out.push(Token { kind: Kind::Mark, start, end: i });
        }
    }
    out.push(Token { kind: Kind::End, start: bytes.len(), end: bytes.len() });
    out
}

fn node(kind: &str, start: usize, end: usize, children: Vec<SyntaxNode>) -> SyntaxNode {
    SyntaxNode {
        kind: kind.into(),
        start: start as u32,
        end: end as u32,
        named: true,
        error: false,
        missing: false,
        field: None,
        literal: IntLiteral::Invalid,
        children,
    }
}

fn field(name: &str, mut inner: SyntaxNode) -> SyntaxNode {
    inner.field = Some(name.into());
    inner
}

struct Reader<'a> {
    source: &'a str,
    tokens: Vec<Token>,
    at: usize,
}

impl<'a> Reader<'a> {
    fn new(source: &'a str) -> Reader<'a> {
        Reader { source, tokens: tokens(source), at: 0 }
    }

    fn token(&self) -> Token {
        self.tokens[self.at]
    }

    fn text(&self, offset: usize) -> &'a str {
        let token = self.tokens[(self.at + offset).min(self.tokens.len() - 1)];
        &self.source[token.start..token.end]
    }

    fn is(&self, text: &str) -> bool {
        self.token().kind != Kind::End && self.token().kind != Kind::Text && self.text(0) == text
    }

    fn take(&mut self, text: &str) -> bool {
        let found = self.is(text);
        if found {
            self.at += 1;
        }
        found
    }

    fn need(&mut self, text: &str) {
        assert!(self.take(text), "expected {} at {}", text, self.token().start);
    }

    fn last_end(&self) -> usize {
        self.tokens[self.at - 1].end
    }

    fn word(&mut self, kind: &str) -> SyntaxNode {
        let token = self.token();
        self.at += 1;
        node(kind, token.start, token.end, vec![])
    }

    fn file(&mut self) -> SyntaxNode {
        let mut children: Vec<SyntaxNode> = Vec::new();
        while self.token().kind != Kind::End {
            if self.take(";") {
                continue;
            }
            children.push(self.declaration());
        }
        node("source_file", 0, self.source.len(), children)
    }

    fn declaration(&mut self) -> SyntaxNode {
        let start: usize = self.token().start;
        if self.is("tolk") {
            self.at += 2;
            if self.take(".") {
                self.at += 1;
            }
            return node("tolk_required_version", start, self.last_end(), vec![]);
        }
        if self.take("import") {
            let path = field("path", self.word("string_literal"));
            return node("import_directive", start, self.last_end(), vec![path]);
        }
        if self.take("const") {
            let name = field("name", self.word("identifier"));
            self.need("=");
            let value = field("value", self.expression());
            return node("constant_declaration", start, self.last_end(), vec![name, value]);
        }
        if self.take("type") {
            let name = field("name", self.word("identifier"));
            self.need("=");
            self.kind_of_value();
            return node("type_alias_declaration", start, self.last_end(), vec![name]);
        }
        if self.is("struct") || self.is("enum") {
            let is_enum = self.is("enum");
            self.at += 1;
            let mut children = vec![field("name", self.word("identifier"))];
            self.skip_type_parameters();
            self.need("{");
            while !self.take("}") {
                self.take("private");
                let from: usize = self.token().start;
                let name = field("name", self.word("identifier"));
                let mut parts = vec![name];
                if self.take(":") {
                    self.kind_of_value();
                }
                if self.take("=") {
                    parts.push(field("value", self.expression()));
                }
                let kind = if is_enum { "enum_member_declaration" } else { "struct_field_declaration" };
                children.push(node(kind, from, self.last_end(), parts));
                self.take(",");
            }
            let kind = if is_enum { "enum_declaration" } else { "struct_declaration" };
            return node(kind, start, self.last_end(), children);
        }
        let is_get = self.take("get");
        self.need("fun");
        let mut children: Vec<SyntaxNode> = Vec::new();
        let first = self.word("identifier");
        self.skip_type_parameters();
        let mut kind = if is_get { "get_method_declaration" } else { "function_declaration" };
        if self.take(".") {
            kind = "method_declaration";
            children.push(field("receiver_type", first));
            children.push(field("name", self.word("identifier")));
        } else {
            children.push(field("name", first));
        }
        self.skip_type_parameters();
        self.callable_rest(&mut children);
        node(kind, start, self.last_end(), children)
    }

    fn callable_rest(&mut self, children: &mut Vec<SyntaxNode>) {
        let from: usize = self.token().start;
        self.need("(");
        let mut parameters: Vec<SyntaxNode> = Vec::new();
        while !self.take(")") {
            let start: usize = self.token().start;
            self.take("mutate");
            let name = field("name", self.word("identifier"));
            let mut parts = vec![name];
            if self.take(":") {
                parts.push(field("type", self.kind_of_value()));
            }
            if self.take("=") {
                self.expression();
            }
            parameters.push(node("parameter_declaration", start, self.last_end(), parts));
            self.take(",");
        }
        let list = node("parameter_list", from, self.last_end(), parameters);
        children.push(field("parameters", list));
        if self.take(":") {
            children.push(field("return_type", self.kind_of_value()));
        }
        if self.is("{") {
            children.push(field("body", self.block()));
        } else {
            self.need("builtin");
        }
    }

    fn skip_type_parameters(&mut self) {
        if self.take("<") {
            while !self.take(">") {
                self.at += 1;
            }
        }
    }

    // A type: its text is all that matters.
    fn kind_of_value(&mut self) -> SyntaxNode {
        let start: usize = self.token().start;
        if self.take("(") {
            while !self.take(")") {
                self.kind_of_value();
                self.take(",");
            }
        } else {
            self.at += 1;
            if self.take("<") {
                while !self.take(">") {
                    self.kind_of_value();
                    self.take(",");
                }
            }
        }
        self.take("?");
        if self.take("->") {
            self.kind_of_value();
        }
        node("type_expression", start, self.last_end(), vec![])
    }

    fn block(&mut self) -> SyntaxNode {
        let start: usize = self.token().start;
        self.need("{");
        let mut children: Vec<SyntaxNode> = Vec::new();
        while !self.take("}") {
            if self.take(";") {
                continue;
            }
            children.push(self.statement());
        }
        node("block_statement", start, self.last_end(), children)
    }

    fn statement(&mut self) -> SyntaxNode {
        let start: usize = self.token().start;
        if self.is("{") {
            return self.block();
        }
        if self.take("if") {
            self.need("(");
            let mut children = vec![field("condition", self.expression())];
            self.need(")");
            children.push(field("body", self.block()));
            if self.take("else") {
                children.push(field("alternative", self.block()));
            }
            return node("if_statement", start, self.last_end(), children);
        }
        if self.take("while") {
            self.need("(");
            let condition = field("condition", self.expression());
            self.need(")");
            let body = field("body", self.block());
            return node("while_statement", start, self.last_end(), vec![condition, body]);
        }
        if self.take("try") {
            let body = field("body", self.block());
            self.need("catch");
            let handler = field("catch", self.block());
            return node("try_catch_statement", start, self.last_end(), vec![body, handler]);
        }
        if self.is("return") || self.is("throw") {
            let kind = if self.is("return") { "return_statement" } else { "throw_statement" };
            self.at += 1;
            let mut children: Vec<SyntaxNode> = Vec::new();
            if !self.is(";") {
                children.push(field("body", self.expression()));
            }
            self.need(";");
            return node(kind, start, self.last_end(), children);
        }
        let inner = self.assignment();
        self.need(";");
        node("expression_statement", start, self.last_end(), vec![inner])
    }

    fn assignment(&mut self) -> SyntaxNode {
        let start: usize = self.token().start;
        if self.is("var") || self.is("val") {
            self.at += 1;
            let declared = self.pattern();
            let left = node("var_declaration_lhs", start, self.last_end(), vec![declared]);
            self.need("=");
            let right = field("right", self.expression());
            return node("assignment", start, self.last_end(), vec![field("left", left), right]);
        }
        let left = self.expression();
        if self.take("=") {
            let right = field("right", self.expression());
            return node("assignment", start, self.last_end(), vec![field("left", left), right]);
        }
        if self.take("-=") || self.take("+=") {
            let right = field("right", self.expression());
            return node("set_assignment", start, self.last_end(), vec![field("left", left), right]);
        }
        left
    }

    // A name with its type, or a list of patterns in brackets.
    fn pattern(&mut self) -> SyntaxNode {
        let start: usize = self.token().start;
        if self.is("(") || self.is("[") {
            let round = self.is("(");
            let mut open = self.word(if round { "(" } else { "[" });
            open.named = false;
            let mut parts = vec![open];
            while !self.take(if round { ")" } else { "]" }) {
                parts.push(self.pattern());
                self.take(",");
            }
            let kind = if round { "tensor_vars_declaration" } else { "tuple_vars_declaration" };
            return node(kind, start, self.last_end(), parts);
        }
        let mut parts = vec![field("name", self.word("identifier"))];
        if self.take(":") {
            parts.push(field("type", self.kind_of_value()));
        }
        node("var_declaration", start, self.last_end(), parts)
    }

    fn expression(&mut self) -> SyntaxNode {
        let start: usize = self.token().start;
        let first = self.binary();
        if self.take("?") {
            let one = field("consequence", self.expression());
            self.need(":");
            let other = field("alternative", self.expression());
            let condition = field("condition", first);
            return node("ternary_operator", start, self.last_end(), vec![condition, one, other]);
        }
        first
    }

    fn binary(&mut self) -> SyntaxNode {
        let start: usize = self.token().start;
        let mut left = self.postfix();
        loop {
            if self.take("as") {
                let target = field("casted_to", self.kind_of_value());
                let inner = field("expr", left);
                left = node("cast_as_operator", start, self.last_end(), vec![inner, target]);
            } else if ["+", "-", "*", ">", "<<"].iter().any(|mark| self.is(mark)) {
                self.at += 1;
                let right = field("right", self.postfix());
                left = node(
                    "binary_operator",
                    start,
                    self.last_end(),
                    vec![field("left", left), right],
                );
            } else {
                return left;
            }
        }
    }

    fn postfix(&mut self) -> SyntaxNode {
        let start: usize = self.token().start;
        let mut inner = self.primary();
        loop {
            if self.is("(") {
                let from: usize = self.token().start;
                self.at += 1;
                let mut arguments: Vec<SyntaxNode> = Vec::new();
                while !self.take(")") {
                    let at: usize = self.token().start;
                    let value = field("expr", self.expression());
                    arguments.push(node("call_argument", at, self.last_end(), vec![value]));
                    self.take(",");
                }
                let list = node("argument_list", from, self.last_end(), arguments);
                inner = node(
                    "function_call",
                    start,
                    self.last_end(),
                    vec![field("callee", inner), field("arguments", list)],
                );
            } else if self.take(".") {
                let numbered = self.token().kind == Kind::Number;
                let name = self.word(if numbered { "numeric_index" } else { "identifier" });
                inner = node(
                    "dot_access",
                    start,
                    self.last_end(),
                    vec![field("obj", inner), field("field", name)],
                );
            } else if self.is("<") && self.text(2) == ">" {
                self.at += 1;
                let from: usize = self.token().start;
                self.kind_of_value();
                let list = node("instantiationT_list", from, self.last_end(), vec![]);
                self.need(">");
                inner = node(
                    "generic_instantiation",
                    start,
                    self.last_end(),
                    vec![field("expr", inner), field("instantiationTs", list)],
                );
            } else {
                return inner;
            }
        }
    }

    fn primary(&mut self) -> SyntaxNode {
        let start: usize = self.token().start;
        match self.token().kind {
            Kind::Number => {
                let value = match number(self.text(0)).map(u64::try_from) {
                    Some(Ok(value)) => IntLiteral::Small(value),
                    _ => IntLiteral::Wide,
                };
                let mut inner = self.word("number_literal");
                inner.literal = value;
                return inner;
            }
            Kind::Text => return self.word("string_literal"),
            _ => {}
        }
        if self.is("true") || self.is("false") {
            return self.word("boolean_literal");
        }
        if self.is("null") {
            return self.word("null_literal");
        }
        if self.take("fun") {
            let mut children: Vec<SyntaxNode> = Vec::new();
            self.callable_rest(&mut children);
            return node("lambda_expression", start, self.last_end(), children);
        }
        if self.is("(") || self.is("[") {
            let closing = if self.is("(") { ")" } else { "]" };
            self.at += 1;
            let mut items: Vec<SyntaxNode> = Vec::new();
            while !self.take(closing) {
                items.push(self.expression());
                self.take(",");
            }
            if closing == "]" {
                return node("typed_tuple", start, self.last_end(), items);
            }
            if items.len() == 1 {
                let inner = field("inner", items.remove(0));
                return node("parenthesized_expression", start, self.last_end(), vec![inner]);
            }
            return node("tensor_expression", start, self.last_end(), items);
        }
        let name = self.word("identifier");
        let is_object = self.is("{") && self.text(2) == ":";
        if !is_object {
            return name;
        }
        let from: usize = self.token().start;
        self.need("{");
        let mut fields: Vec<SyntaxNode> = Vec::new();
        while !self.take("}") {
            let at: usize = self.token().start;
            let key = field("name", self.word("identifier"));
            self.need(":");
            let value = field("value", self.expression());
            fields.push(node("instance_argument", at, self.last_end(), vec![key, value]));
            self.take(",");
        }
        let list = node("object_literal_body", from, self.last_end(), fields);
        node(
            "object_literal",
            start,
            self.last_end(),
            vec![field("type", name), field("arguments", list)],
        )
    }
}

#[derive(Clone, PartialEq)]
enum Shape {
    Array,
    Mapping,
    List,
    Named(String),
}

fn shape_of(text: &str) -> Shape {
    if text.starts_with("array<") {
        Shape::Array
    } else if text.starts_with("map<") {
        Shape::Mapping
    } else if text.starts_with("lisp_list<") {
        Shape::List
    } else {
        Shape::Named(text.into())
    }
}

fn part<'a>(inner: &'a SyntaxNode, name: &str) -> Option<&'a SyntaxNode> {
    inner.children.iter().find(|child| child.field.as_deref() == Some(name))
}

fn span(inner: &SyntaxNode) -> Span {
    Span { start: inner.start, end: inner.end }
}

// A declared symbol as the other files see it.
#[derive(Clone)]
struct Global {
    id: SymbolRef,
    receiver: Option<String>,
    mutates: bool,
    // The position of the parameter of which the type is that of the result.
    forwards: Option<usize>,
}

struct Source {
    id: u32,
    path: String,
    text: String,
    root: SyntaxNode,
    kind: SourceKind,
    errors: Vec<ParseError>,
}

impl Source {
    fn at(&self, inner: &SyntaxNode) -> &str {
        &self.text[inner.start as usize..inner.end as usize]
    }

    fn name(&self, inner: &SyntaxNode) -> String {
        part(inner, "name").map(|name| self.at(name).to_string()).unwrap_or_default()
    }
}

fn globals_of(source: &Source, out: &mut BTreeMap<String, Vec<Global>>) {
    let mut next: u32 = 0;
    for inner in &source.root.children {
        let Some(_) = part(inner, "name") else {
            continue;
        };
        let id = SymbolRef { file: source.id, local: next };
        next += 1;
        let parameters = part(inner, "parameters").map(|list| &list.children);
        let result = part(inner, "return_type").map(|kind| source.at(kind));
        let forwards = parameters.and_then(|list| {
            list.iter().position(|item| {
                result.is_some() && part(item, "type").map(|kind| source.at(kind)) == result
                    && result == Some("T")
            })
        });
        let mutates = parameters
            .and_then(|list| list.first())
            .is_some_and(|item| source.at(item).starts_with("mutate self"));
        out.entry(source.name(inner)).or_default().push(Global {
            id,
            receiver: part(inner, "receiver_type").map(|kind| source.at(kind).to_string()),
            mutates,
            forwards,
        });
        if inner.kind == "struct_declaration" || inner.kind == "enum_declaration" {
            next += inner.children.len() as u32 - 1;
        }
    }
}

struct Resolver<'a> {
    source: &'a Source,
    globals: &'a BTreeMap<String, Vec<Global>>,
    scopes: Vec<Vec<(String, LocalRef, Option<Shape>)>>,
    owner: Option<SymbolRef>,
    locals: Vec<LocalFact>,
    locals_at: Vec<LocalAt>,
    uses: Vec<UseFact>,
    accesses: Vec<AccessFact>,
    expressions: Vec<ExpressionFact>,
    resolved: BTreeMap<(u32, u32), Resolved>,
    lambdas: Vec<SyntaxSpan>,
}

#[derive(Clone, Copy)]
struct SyntaxSpan {
    span: Span,
    owner: Option<SymbolRef>,
}

impl<'a> Resolver<'a> {
    fn find_local(&self, name: &str) -> Option<(LocalRef, Option<Shape>)> {
        for scope in self.scopes.iter().rev() {
            for (other, local, shape) in scope.iter().rev() {
                if other == name {
                    return Some((*local, shape.clone()));
                }
            }
        }
        None
    }

    fn define(&mut self, name: &SyntaxNode, kind: LocalKind, shape: Option<Shape>) {
        let id = LocalRef { file: self.source.id, local: self.locals.len() as u32 };
        let text = self.source.at(name).to_string();
        self.locals.push(LocalFact {
            id,
            name: text.clone(),
            kind,
            span: span(name),
            owner: self.owner,
        });
        self.locals_at.push(LocalAt { offset: name.start, local: id });
        self.resolved.insert((name.start, name.end), Resolved::Local(id));
        self.scopes.last_mut().unwrap().push((text, id, shape));
    }

    fn define_all(&mut self, pattern: &SyntaxNode, kind: LocalKind, shape: Option<Shape>) {
        match part(pattern, "name") {
            Some(name) => self.define(name, kind, shape),
            None => {
                for inner in &pattern.children {
                    if inner.named {
                        self.define_all(inner, kind, None);
                    }
                }
            }
        }
    }

    fn record(&mut self, name: &SyntaxNode, resolved: Resolved) {
        self.resolved.insert((name.start, name.end), resolved);
        self.uses.push(UseFact {
            name: self.source.at(name).to_string(),
            span: span(name),
            kind: NameKind::Value,
            resolved,
        });
    }

    fn access(&mut self, inner: &SyntaxNode, access: ReferenceAccess) {
        self.accesses.push(AccessFact { span: span(inner), access });
    }

    fn callable(&mut self, inner: &SyntaxNode) {
        self.scopes.push(Vec::new());
        if let Some(list) = part(inner, "parameters") {
            for item in &list.children {
                let name = part(item, "name").unwrap();
                let shape = match part(item, "type") {
                    Some(kind) => Some(shape_of(self.source.at(kind))),
                    None => part(inner, "receiver_type").map(|kind| match self.source.at(kind) {
                        "array" => Shape::Array,
                        "map" => Shape::Mapping,
                        name => Shape::Named(name.to_string()),
                    }),
                };
                let mutable = self.source.at(item).starts_with("mutate ");
                self.define(name, LocalKind::Parameter { mutable }, shape);
            }
        }
        if let Some(body) = part(inner, "body") {
            self.statements(body);
        }
        self.scopes.pop();
    }

    fn statements(&mut self, block: &SyntaxNode) {
        self.scopes.push(Vec::new());
        for statement in &block.children {
            self.statement(statement);
        }
        self.scopes.pop();
    }

    fn statement(&mut self, inner: &SyntaxNode) {
        for child in &inner.children {
            if child.kind == "block_statement" {
                self.statements(child);
            } else {
                self.value(child, None);
            }
        }
    }

    // Resolves the names in an expression, and finds out the shape of its value.
    fn value(&mut self, inner: &SyntaxNode, expected: Option<Shape>) -> Option<Shape> {
        let shape = self.shape(inner, expected);
        let number: Option<u32> = match &shape {
            Some(Shape::Array) => Some(1),
            Some(Shape::Mapping) => Some(2),
            Some(Shape::List) => Some(3),
            _ => None,
        };
        if let Some(type_number) = number {
            self.expressions.push(ExpressionFact { span: span(inner), type_number });
        }
        shape
    }

    fn shape(&mut self, inner: &SyntaxNode, expected: Option<Shape>) -> Option<Shape> {
        match inner.kind.as_str() {
            "identifier" => {
                let name = self.source.at(inner).to_string();
                if let Some((local, shape)) = self.find_local(&name) {
                    self.record(inner, Resolved::Local(local));
                    return shape;
                }
                let found = self.globals.get(&name).and_then(|list| list.first().cloned());
                match found {
                    Some(global) => self.record(inner, Resolved::Global(global.id)),
                    None => self.record(inner, Resolved::Unresolved),
                }
                None
            }
            "typed_tuple" => {
                for child in &inner.children {
                    self.value(child, None);
                }
                expected
            }
            "lambda_expression" => {
                self.lambdas.push(SyntaxSpan { span: span(inner), owner: self.owner });
                self.callable(inner);
                None
            }
            "assignment" => {
                let left = part(inner, "left").unwrap();
                let right = part(inner, "right").unwrap();
                if left.kind == "var_declaration_lhs" {
                    let declared = &left.children[0];
                    let wanted = part(declared, "type").map(|kind| shape_of(self.source.at(kind)));
                    let found = self.value(right, wanted.clone());
                    let mutable = self.source.at(inner).starts_with("var");
                    self.define_all(declared, LocalKind::Variable { mutable }, wanted.or(found));
                } else {
                    self.value(left, None);
                    if left.kind == "identifier" {
                        let write = ReferenceAccess { read: false, write: true, mutate: false };
                        self.access(left, write);
                    }
                    self.value(right, None);
                }
                None
            }
            "object_literal" => {
                let list = part(inner, "arguments").unwrap();
                for item in &list.children {
                    self.value(part(item, "value").unwrap(), None);
                }
                part(inner, "type").map(|kind| Shape::Named(self.source.at(kind).to_string()))
            }
            "dot_access" => {
                let object = part(inner, "obj").unwrap();
                let name = part(inner, "field").unwrap();
                let is_type = object.kind == "identifier"
                    && self.find_local(self.source.at(object)).is_none()
                    && !self.globals.contains_key(self.source.at(object));
                let receiver = if is_type {
                    Some(self.source.at(object).to_string())
                } else {
                    match self.value(object, None) {
                        Some(Shape::Named(shape)) => Some(shape),
                        Some(Shape::Array) => Some("array".to_string()),
                        Some(Shape::Mapping) => Some("map".to_string()),
                        Some(Shape::List) => Some("lisp_list".to_string()),
                        None => None,
                    }
                };
                if name.kind != "identifier" {
                    return None;
                }
                let text = self.source.at(name).to_string();
                let found = self.globals.get(&text).and_then(|list| {
                    list.iter()
                        .find(|global| {
                            global.receiver.is_some()
                                && (global.receiver == receiver
                                    || global.receiver.as_deref() == Some("T"))
                        })
                        .cloned()
                });
                if let Some(global) = found {
                    self.record(name, Resolved::Global(global.id));
                    if global.mutates && !is_type {
                        let all = ReferenceAccess { read: true, write: true, mutate: true };
                        self.access(object, all);
                    }
                }
                None
            }
            "function_call" => {
                let callee = part(inner, "callee").unwrap();
                self.value(callee, None);
                let mut shapes: Vec<Option<Shape>> = Vec::new();
                for item in &part(inner, "arguments").unwrap().children {
                    shapes.push(self.value(part(item, "expr").unwrap(), None));
                }
                let key = (callee.start, callee.end);
                if let Some(Resolved::Global(id)) = self.resolved.get(&key).copied() {
                    let global = self
                        .globals
                        .values()
                        .flatten()
                        .find(|global| global.id == id)
                        .cloned();
                    if let Some(position) = global.and_then(|global| global.forwards) {
                        return shapes.get(position).cloned().flatten();
                    }
                }
                if callee.kind == "dot_access" {
                    let object = part(callee, "obj").unwrap();
                    let method = self.source.at(part(callee, "field").unwrap());
                    let is_map = self.expressions.iter().any(|fact| {
                        fact.span == span(object) && fact.type_number == 2
                    });
                    if is_map && method == "set" {
                        return Some(Shape::Mapping);
                    }
                    if is_map && method == "get" {
                        return Some(Shape::Named("MapLookupResult".to_string()));
                    }
                }
                None
            }
            "type_expression" => None,
            _ => {
                for child in &inner.children {
                    if child.kind == "block_statement" {
                        self.statements(child);
                    } else {
                        self.value(child, None);
                    }
                }
                None
            }
        }
    }
}

struct Flow<'a> {
    resolved: &'a BTreeMap<(u32, u32), Resolved>,
    nodes: Vec<FlowNode>,
    edges: Vec<FlowEdge>,
    // Where control goes when something throws.
    handlers: Vec<usize>,
    locals: BTreeSet<(u32, u32)>,
}

type Open = Vec<(usize, EdgeKind)>;

impl<'a> Flow<'a> {
    fn read(resolved: &'a BTreeMap<(u32, u32), Resolved>, callable: &SyntaxNode) -> FlowGraph {
        let mut flow = Flow {
            resolved,
            nodes: Vec::new(),
            edges: Vec::new(),
            handlers: Vec::new(),
            locals: BTreeSet::new(),
        };
        flow.add(FlowKind::Entry, None);
        flow.add(FlowKind::Exit, None);
        if let Some(list) = part(callable, "parameters") {
            flow.collect(list, &mut Vec::new(), &mut Vec::new());
        }
        let open = match part(callable, "body") {
            Some(body) => flow.block(body, vec![(0, EdgeKind::Unconditional)]),
            None => vec![(0, EdgeKind::Unconditional)],
        };
        flow.join(open, 1);
        FlowGraph {
            nodes: flow.nodes,
            edges: flow.edges,
            entry: 0,
            exit: 1,
            locals: flow
                .locals
                .iter()
                .map(|&(file, local)| LocalRef { file, local })
                .collect(),
        }
    }

    fn add(&mut self, kind: FlowKind, inner: Option<&SyntaxNode>) -> usize {
        let mut reads: Vec<LocalRef> = Vec::new();
        let mut writes: Vec<LocalRef> = Vec::new();
        if let Some(inner) = inner {
            self.collect(inner, &mut reads, &mut writes);
        }
        let index: usize = self.nodes.len();
        self.nodes.push(FlowNode { kind, span: inner.map(span), reads, writes });
        if index > 1 {
            if let Some(&handler) = self.handlers.last() {
                self.edge(index, handler, EdgeKind::Exceptional);
            }
        }
        index
    }

    fn edge(&mut self, from: usize, to: usize, kind: EdgeKind) {
        self.edges.push(FlowEdge { from, to, kind });
    }

    fn join(&mut self, open: Open, to: usize) {
        for (from, kind) in open {
            self.edge(from, to, kind);
        }
    }

    fn collect(
        &mut self,
        inner: &SyntaxNode,
        reads: &mut Vec<LocalRef>,
        writes: &mut Vec<LocalRef>,
    ) {
        if inner.kind == "lambda_expression" {
            return;
        }
        if inner.kind == "identifier" {
            if let Some(Resolved::Local(local)) = self.resolved.get(&(inner.start, inner.end)) {
                self.locals.insert((local.file, local.local));
                reads.push(*local);
            }
            return;
        }
        for child in &inner.children {
            let is_target = child.field.as_deref() == Some("left")
                && (inner.kind == "assignment" || inner.kind == "set_assignment");
            if is_target {
                let mut found: Vec<LocalRef> = Vec::new();
                self.collect(child, &mut found, &mut Vec::new());
                writes.extend(found);
            } else {
                self.collect(child, reads, writes);
            }
        }
    }

    fn block(&mut self, block: &SyntaxNode, open: Open) -> Open {
        let mut open = open;
        for statement in &block.children {
            open = self.statement(statement, open);
        }
        open
    }

    fn statement(&mut self, inner: &SyntaxNode, open: Open) -> Open {
        match inner.kind.as_str() {
            "block_statement" => self.block(inner, open),
            "if_statement" => {
                let at = self.add(FlowKind::Condition, part(inner, "condition"));
                self.join(open, at);
                let taken = vec![(at, EdgeKind::TrueBranch)];
                let mut out = self.block(part(inner, "body").unwrap(), taken);
                let other = vec![(at, EdgeKind::FalseBranch)];
                match part(inner, "alternative") {
                    Some(body) => out.extend(self.block(body, other)),
                    None => out.extend(other),
                }
                out
            }
            "while_statement" => {
                let at = self.add(FlowKind::Condition, part(inner, "condition"));
                self.join(open, at);
                let taken = vec![(at, EdgeKind::TrueBranch)];
                let back = self.block(part(inner, "body").unwrap(), taken);
                for (from, _) in back {
                    self.edge(from, at, EdgeKind::LoopBack);
                }
                vec![(at, EdgeKind::FalseBranch)]
            }
            "try_catch_statement" => {
                let caught = self.add(FlowKind::CatchBinding, None);
                self.handlers.push(caught);
                let mut out = self.block(part(inner, "body").unwrap(), open);
                self.handlers.pop();
                let handler = part(inner, "catch").unwrap();
                out.extend(self.block(handler, vec![(caught, EdgeKind::Unconditional)]));
                out
            }
            "return_statement" => {
                let at = self.add(FlowKind::Return, Some(inner));
                self.join(open, at);
                self.edge(at, 1, EdgeKind::Return);
                Vec::new()
            }
            "throw_statement" => {
                let at = self.add(FlowKind::Throw, Some(inner));
                self.join(open, at);
                self.edge(at, 1, EdgeKind::Throw);
                Vec::new()
            }
            _ => {
                let at = self.add(FlowKind::Expression, inner.children.first());
                self.join(open, at);
                vec![(at, EdgeKind::Unconditional)]
            }
        }
    }
}

fn find<'a>(inner: &'a SyntaxNode, wanted: Span) -> Option<&'a SyntaxNode> {
    if inner.kind == "lambda_expression" && span(inner) == wanted {
        return Some(inner);
    }
    inner.children.iter().find_map(|child| find(child, wanted))
}

fn locate(inner: &SyntaxNode, path: &mut Vec<usize>, out: &mut Vec<LocatedFact>) {
    out.push(LocatedFact { span: span(inner), path: path.clone() });
    for (i, child) in inner.children.iter().enumerate() {
        path.push(i);
        locate(child, path, out);
        path.pop();
    }
}

fn number(text: &str) -> Option<u128> {
    match text.strip_prefix("0x") {
        Some(digits) => u128::from_str_radix(digits, 16).ok(),
        None => text.parse().ok(),
    }
}

// Integers as far as they fit; a shift out of that range overflows.
fn evaluate(source: &Source, inner: &SyntaxNode, known: &BTreeMap<String, Evaluated>) -> Evaluated {
    let integer = |value: &Evaluated| match value {
        Evaluated::Int(text) => text.parse::<i128>().ok(),
        _ => None,
    };
    match inner.kind.as_str() {
        "number_literal" => Evaluated::Int(match number(source.at(inner)) {
            Some(value) => value.to_string(),
            None => source.at(inner).into(),
        }),
        "boolean_literal" => Evaluated::Bool(source.at(inner) == "true"),
        "string_literal" => Evaluated::Text(source.at(inner).trim_matches('"').into()),
        "parenthesized_expression" => evaluate(source, &inner.children[0], known),
        "identifier" => match known.get(source.at(inner)) {
            Some(value) => copied(value),
            None => Evaluated::Unknown,
        },
        "binary_operator" => {
            let left = evaluate(source, &inner.children[0], known);
            let right = evaluate(source, &inner.children[1], known);
            let (Some(a), Some(b)) = (integer(&left), integer(&right)) else {
                return Evaluated::Unknown;
            };
            let from = inner.children[0].end as usize;
            let mark = source.text[from..inner.children[1].start as usize].trim();
            let value = match mark.trim_matches(')') {
                "+" => a.checked_add(b),
                "*" => a.checked_mul(b),
                "<<" => if b < 120 { a.checked_shl(b as u32) } else { None },
                _ => None,
            };
            match value {
                Some(value) => Evaluated::Int(value.to_string()),
                None => Evaluated::Overflow,
            }
        }
        _ => Evaluated::Unknown,
    }
}

fn copied(value: &Evaluated) -> Evaluated {
    match value {
        Evaluated::Int(text) => Evaluated::Int(text.clone()),
        Evaluated::Bool(value) => Evaluated::Bool(*value),
        Evaluated::Text(text) => Evaluated::Text(text.clone()),
        Evaluated::Overflow => Evaluated::Overflow,
        Evaluated::Unknown => Evaluated::Unknown,
    }
}

fn blank_symbol(id: SymbolRef, name: String, kind: SymbolKind, at: &SyntaxNode) -> SymbolFact {
    SymbolFact {
        id,
        fqn: name.clone(),
        name,
        kind,
        name_span: span(part(at, "name").unwrap()),
        body_span: span(at),
        doc: String::new(),
        deprecated: false,
        pure: false,
        private: false,
        declaration: None,
        graph: None,
        constant: None,
        type_number: None,
        children: Vec::new(),
    }
}

fn facts_of(
    source: Source,
    globals: &BTreeMap<String, Vec<Global>>,
    imports: Vec<ImportFact>,
) -> FileFacts {
    let mut resolver = Resolver {
        source: &source,
        globals,
        scopes: Vec::new(),
        owner: None,
        locals: Vec::new(),
        locals_at: Vec::new(),
        uses: Vec::new(),
        accesses: Vec::new(),
        expressions: Vec::new(),
        resolved: BTreeMap::new(),
        lambdas: Vec::new(),
    };
    let mut symbols: Vec<SymbolFact> = Vec::new();
    let mut known: BTreeMap<String, Evaluated> = BTreeMap::new();
    let mut next: u32 = 0;
    for (position, inner) in source.root.children.iter().enumerate() {
        if part(inner, "name").is_none() {
            continue;
        }
        let id = SymbolRef { file: source.id, local: next };
        next += 1;
        let name = source.name(inner);
        let mut symbol = match inner.kind.as_str() {
            "function_declaration" => blank_symbol(id, name, SymbolKind::Function, inner),
            "get_method_declaration" => blank_symbol(id, name, SymbolKind::GetMethod, inner),
            "method_declaration" => {
                let instance = part(inner, "parameters")
                    .and_then(|list| list.children.first())
                    .is_some_and(|item| source.name(item) == "self");
                blank_symbol(id, name, SymbolKind::Method { instance }, inner)
            }
            "struct_declaration" => blank_symbol(id, name, SymbolKind::Struct, inner),
            "enum_declaration" => blank_symbol(id, name, SymbolKind::Enum, inner),
            "constant_declaration" => blank_symbol(id, name, SymbolKind::Constant, inner),
            _ => blank_symbol(id, name, SymbolKind::TypeAlias, inner),
        };
        symbol.declaration = Some(vec![position]);
        if part(inner, "parameters").is_some() {
            resolver.owner = Some(id);
            resolver.callable(inner);
            resolver.owner = None;
        }
        if let Some(value) = part(inner, "value") {
            let value = evaluate(&source, value, &known);
            known.insert(source.name(inner), copied(&value));
            symbol.constant = Some(ConstantFact { value, display: String::new() });
        }
        if inner.kind == "struct_declaration" || inner.kind == "enum_declaration" {
            let mut previous: Option<i128> = None;
            for member in inner.children.iter().skip(1) {
                let id = SymbolRef { file: source.id, local: next };
                next += 1;
                let is_enum = inner.kind == "enum_declaration";
                let kind = if is_enum { SymbolKind::EnumMember } else { SymbolKind::StructField };
                let mut child = blank_symbol(id, source.name(member), kind, member);
                if is_enum {
                    let value = match part(member, "value") {
                        Some(value) => evaluate(&source, value, &known),
                        None => Evaluated::Int((previous.unwrap_or(-1) + 1).to_string()),
                    };
                    if let Evaluated::Int(text) = &value {
                        previous = text.parse().ok();
                    }
                    child.constant = Some(ConstantFact { value, display: String::new() });
                }
                symbol.children.push(child);
            }
        }
        symbols.push(symbol);
    }
    let Resolver { locals, locals_at, uses, accesses, expressions, resolved, lambdas, .. } = resolver;
    let mut lambda_facts: Vec<LambdaFact> = Vec::new();
    for item in &lambdas {
        let inner = find(&source.root, item.span).unwrap();
        lambda_facts.push(LambdaFact {
            span: item.span,
            owner: item.owner,
            graph: Some(Flow::read(&resolved, inner)),
        });
    }
    for symbol in &mut symbols {
        let position = symbol.declaration.as_ref().unwrap()[0];
        let inner = &source.root.children[position];
        if part(inner, "body").is_some() {
            symbol.graph = Some(Flow::read(&resolved, inner));
        }
    }
    let mut located: Vec<LocatedFact> = Vec::new();
    locate(&source.root, &mut Vec::new(), &mut located);
    FileFacts {
        id: source.id,
        path: normalize_path(&source.path).unwrap(),
        text: SourceText { path: source.path, source: source.text, root: source.root },
        source_kind: source.kind,
        errors: source.errors,
        imports,
        contract: None,
        symbols,
        resolved: Some(ResolvedFacts { locals, uses }),
        accesses,
        bodies: vec![BodyFacts { expressions, uses: Vec::new() }],
        lambdas: lambda_facts,
        located,
        locals_at,
    }
}

// The text between the quotes of an import, and its place.
fn imports_in(source: &Source) -> Vec<(String, Span)> {
    source
        .root
        .children
        .iter()
        .filter(|inner| inner.kind == "import_directive")
        .map(|inner| {
            let path = source.at(part(inner, "path").unwrap()).trim_matches('"').to_string();
            (path, span(inner))
        })
        .collect()
}

fn import_target(path: &str, import: &str, mappings: &BTreeMap<String, String>) -> String {
    let directory = &path[..path.rfind('/').unwrap()];
    let base = match import.strip_prefix('@') {
        Some(rest) => {
            let (name, inner) = rest.split_once('/').unwrap();
            format!("{}/{}", mappings[name], inner)
        }
        None => format!("{}/{}", directory, import),
    };
    format!("{}.tolk", base)
}

struct Options {
    entrypoints: Vec<String>,
    stdlib_root: Option<String>,
    mappings: Vec<(String, String)>,
    control_flow: ControlFlowScope,
    // A tree and the errors of a file that the reader above does not take.
    broken: Option<(SyntaxNode, Vec<ParseError>)>,
    lints: Vec<LintFact>,
}

fn options(entrypoints: &[&str]) -> Options {
    Options {
        entrypoints: entrypoints.iter().map(|path| path.to_string()).collect(),
        stdlib_root: None,
        mappings: Vec::new(),
        control_flow: ControlFlowScope::Workspace,
        broken: None,
        lints: Vec::new(),
    }
}

fn inspect(files: &[(&str, &str)], options: Options) -> ProjectSnapshot {
    let mut table: Table<String, String> = Table::new();
    for (path, text) in files {
        table.insert(path.to_string(), text.to_string());
    }
    let mut mappings: Table<String, String> = Table::new();
    for (name, path) in &options.mappings {
        mappings.insert(name.clone(), path.clone());
    }
    let plan = prepare(&ProjectInput {
        root: "/project".into(),
        files: table,
        entrypoints: options.entrypoints,
        stdlib_root: options.stdlib_root,
        acton_stdlib_root: None,
        import_mappings: mappings,
        control_flow: options.control_flow,
    })
    .unwrap();
    let named: BTreeMap<String, String> = options.mappings.into_iter().collect();
    let mut waiting: Vec<String> = plan.roots.iter().map(|path| path.text()).collect();
    let library = plan.stdlib_root.as_ref().map(|path| path.text());
    if let Some(directory) = &library {
        waiting.push(format!("{}/common.tolk", directory));
    }
    let mut broken = options.broken;
    let mut sources: Vec<Source> = Vec::new();
    while let Some(path) = waiting.pop() {
        if sources.iter().any(|source| source.path == path) {
            continue;
        }
        let Some(text) = plan.files.get(&normalize_path(&path).unwrap()) else {
            continue;
        };
        let (root, errors) = match broken.take() {
            Some(given) => given,
            None => (Reader::new(text).file(), Vec::new()),
        };
        let in_library = library.as_ref().is_some_and(|directory| path.starts_with(directory));
        let source = Source {
            id: sources.len() as u32,
            path: path.clone(),
            text: text.clone(),
            root,
            kind: if in_library { SourceKind::Stdlib } else { SourceKind::Workspace },
            errors,
        };
        for (import, _) in imports_in(&source) {
            waiting.push(import_target(&path, &import, &named));
        }
        sources.push(source);
    }
    let mut globals: BTreeMap<String, Vec<Global>> = BTreeMap::new();
    for source in &sources {
        globals_of(source, &mut globals);
    }
    let ids: BTreeMap<String, u32> =
        sources.iter().map(|source| (source.path.clone(), source.id)).collect();
    let mut file_facts: Vec<FileFacts> = Vec::new();
    for source in sources {
        let imports = imports_in(&source)
            .into_iter()
            .map(|(import, span)| ImportFact {
                target: ids.get(&import_target(&source.path, &import, &named)).copied(),
                path: import,
                span,
            })
            .collect();
        file_facts.push(facts_of(source, &globals, imports));
    }
    let plain = |data: TypeData, display: &str, unaliased: u32| TypeFact {
        data,
        display: display.into(),
        unaliased,
    };
    build(ProjectFacts {
        root: plan.root,
        files: file_facts,
        types: vec![
            plain(TypeData::Int, "int", 0),
            plain(TypeData::Array(0), "array<int>", 1),
            plain(TypeData::Mapping { key: 0, value: 0 }, "map<int, int>", 2),
            plain(
                TypeData::Struct {
                    name: "lisp_list".into(),
                    symbol: SymbolRef { file: 0, local: 0 },
                    arguments: vec![0],
                },
                "lisp_list<int>",
                3,
            ),
        ],
        errors: Vec::new(),
        lints: options.lints,
        control_flow: plan.control_flow,
    })
    .unwrap()
}

fn project(files: &[(&str, &str)], roots: &[&str]) -> ProjectSnapshot {
    inspect(files, options(roots))
}

const COMMON: &str = r#"
tolk 1.4
type int = builtin
type bool = builtin
type cell = builtin
type unknown = builtin
struct map<K, V> { private tvmDict: cell? }
struct array<T> { private tvmTuple: unknown }
struct MapLookupResult<TValue> { private value: TValue, isFound: bool }
fun array<T>.push(mutate self, value: T): void builtin
fun array<T>.first(self): T builtin
fun array<T>.get(self, index: int): T builtin
fun array<T>.set(mutate self, value: T, index: int): void builtin
fun array<T>.last(self): T builtin
fun array<T>.pop(mutate self): T builtin
fun map<K, V>.get(self, key: K): MapLookupResult<V> builtin
fun map<K, V>.mustGet(self, key: K, throwIfNotFound: int = 9): V builtin
fun map<K, V>.set(mutate self, key: K, value: V): self builtin
fun MapLookupResult<TValue>.loadValue(self): TValue { return self.value; }
"#;

fn project_with_stdlib(source: &str) -> ProjectSnapshot {
    project_with_library(source, COMMON)
}

fn project_with_library(source: &str, library: &str) -> ProjectSnapshot {
    let mut given = options(&["/project/main.tolk"]);
    given.stdlib_root = Some("/project/stdlib".into());
    inspect(
        &[
            ("/project/main.tolk", source),
            ("/project/stdlib/common.tolk", library),
        ],
        given,
    )
}

fn global<'a>(snapshot: &'a ProjectSnapshot, name: &str) -> &'a SymbolInfo {
    snapshot
        .symbols
        .iter()
        .find(|symbol| symbol.name == name && !symbol.flags.local)
        .expect("global symbol")
}

fn set(ids: &[String]) -> BTreeSet<String> {
    ids.iter().cloned().collect()
}

fn indirect<'a>(snapshot: &'a ProjectSnapshot, caller: &str) -> Vec<&'a CallSite> {
    let id = &global(snapshot, caller).id;
    let mut out: Vec<&CallSite> = snapshot
        .call_sites
        .iter()
        .filter(|call| &call.caller == id && call.dispatch == "indirect")
        .collect();
    out.sort_by_key(|call| call.location.byte_range.start);
    out
}

fn known<'a>(snapshot: &'a ProjectSnapshot, caller: &str) -> Vec<&'a CallSite> {
    indirect(snapshot, caller).into_iter().filter(|call| !call.targets.is_empty()).collect()
}

#[test]
fn resolves_cross_file_calls_and_preserves_utf16_locations() {
    let snapshot = project(
        &[
            (
                "/project/main.tolk",
                "import \"lib\";\nfun main() { /* 😀 */ answer(); }",
            ),
            ("/project/lib.tolk", "fun answer(): int { return 42; }"),
        ],
        &["/project/main.tolk"],
    );
    let answer = snapshot.symbols.iter().find(|symbol| symbol.name == "answer").unwrap();
    let call = snapshot.call_graph.iter().find(|call| call.callee == answer.id).unwrap();
    let call_site = snapshot
        .call_sites
        .iter()
        .find(|call_site| call_site.targets.contains(&answer.id))
        .unwrap();
    assert_eq!(call.dispatch, "direct");
    assert_eq!(call_site.dispatch, "direct");
    assert!(call_site.complete);
    assert_eq!(call.call_site.range.start.line, 1);
    // Four bytes of the comment are two units of UTF-16.
    assert_eq!(call.call_site.range.start.character, 22);
    assert_eq!(call.call_site.byte_range.start, 38);
    assert_eq!(
        snapshot
            .references
            .iter()
            .find(|reference| reference.name == "answer")
            .unwrap()
            .symbol_id
            .as_ref(),
        Some(&answer.id)
    );
    assert!(snapshot.nodes.iter().any(|node| node.kind == "functionDeclaration"));
}

#[test]
fn classifies_reference_access_with_tolk_analysis() {
    let source = r#"
struct Counter {
    value: int
}

fun Counter.increment(mutate self) {
    self.value += 1;
}

fun main() {
    var counter = Counter { value: 0 };
    counter.increment();
    val copy = counter;
    counter = Counter { value: 1 };
}
"#;
    let snapshot = project(&[("/project/main.tolk", source)], &["/project/main.tolk"]);
    let counter_uses = snapshot
        .references
        .iter()
        .filter(|reference| reference.name == "counter")
        .collect::<Vec<_>>();

    let mutation = counter_uses
        .iter()
        .find(|reference| reference.context.access.mutate)
        .expect("mutable method receiver must be classified as a mutation");
    assert_eq!(mutation.context.usage, "call");
    assert!(mutation.context.access.read);
    assert!(mutation.context.access.write);

    let read = counter_uses
        .iter()
        .find(|reference| reference.context.usage == "read" && !reference.context.access.write)
        .expect("copy initializer must be classified as a read");
    assert!(read.context.access.read);
    assert!(!read.context.access.mutate);

    let write = counter_uses
        .iter()
        .find(|reference| reference.context.usage == "write")
        .expect("assignment target must be classified as a write");
    assert!(!write.context.access.read);
    assert!(write.context.access.write);
    assert!(!write.context.access.mutate);
    assert_eq!(snapshot.call_sites.len(), 1);
    assert_eq!(snapshot.call_sites[0].dispatch, "direct");
}

#[test]
fn evaluates_constants_and_enum_members_without_losing_integer_precision() {
    let source = r#"
const BASE = 10;
const VALUE = (BASE + 2) * 3;
const HUGE = 18446744073709551616;
const ENABLED = true;
const LABEL = "tolk";
const TOO_BIG = 1 << 256;
const NONE = null;

enum Mode {
    First = VALUE,
    Second,
}
"#;
    let snapshot = project(&[("/project/main.tolk", source)], &["/project/main.tolk"]);
    let value_for = |name: &str| {
        let symbol = snapshot
            .symbols
            .iter()
            .find(|symbol| symbol.name == name)
            .expect("expected symbol");
        &snapshot
            .constant_values
            .iter()
            .find(|constant| constant.symbol_id == symbol.id)
            .expect("expected evaluated value")
            .value
    };

    assert!(matches!(
        value_for("VALUE"),
        ConstantValue::Int { value, .. } if value == "36"
    ));
    assert!(matches!(
        value_for("HUGE"),
        ConstantValue::Int { value, .. } if value == "18446744073709551616"
    ));
    assert!(matches!(
        value_for("First"),
        ConstantValue::Int { value, .. } if value == "36"
    ));
    assert!(matches!(
        value_for("Second"),
        ConstantValue::Int { value, .. } if value == "37"
    ));
    assert!(matches!(
        value_for("ENABLED"),
        ConstantValue::Bool { value: true, .. }
    ));
    assert!(matches!(
        value_for("LABEL"),
        ConstantValue::Text { value, .. } if value == "tolk"
    ));
    assert!(matches!(value_for("TOO_BIG"), ConstantValue::Overflow { .. }));
    assert!(matches!(value_for("NONE"), ConstantValue::Unknown { .. }));
}

#[test]
fn exposes_control_flow_branches_loops_locations_and_local_accesses() {
    let source = r#"
fun flow(x: int): int {
    var y = x;
    if (y > 0) {
        y = y - 1;
    } else {
        y = y + 1;
    }
    while (y > 0) {
        y = y - 1;
    }
    return y;
}
"#;
    let snapshot = project(&[("/project/main.tolk", source)], &["/project/main.tolk"]);
    let flow = snapshot
        .symbols
        .iter()
        .find(|symbol| symbol.name == "flow")
        .expect("flow symbol");
    let y = snapshot
        .symbols
        .iter()
        .find(|symbol| symbol.name == "y" && symbol.containing_symbol.as_ref() == Some(&flow.id))
        .expect("local y symbol");
    let graph = snapshot
        .control_flow_graphs
        .iter()
        .find(|graph| graph.symbol_id == flow.id)
        .expect("flow CFG");

    assert!(graph.nodes.iter().any(|node| node.id == graph.entry));
    assert!(graph.nodes.iter().any(|node| node.id == graph.exit));
    assert!(graph.edges.iter().any(|edge| edge.kind == "trueBranch"));
    assert!(graph.edges.iter().any(|edge| edge.kind == "falseBranch"));
    assert!(graph.edges.iter().any(|edge| edge.kind == "loopBack"));
    assert!(graph.edges.iter().any(|edge| edge.kind == "return"));
    assert!(graph.nodes.iter().any(|node| node.reads.contains(&y.id)));
    assert!(graph.nodes.iter().any(|node| node.writes.contains(&y.id)));
    assert!(graph.nodes.iter().any(|node| {
        node.kind == "condition" && node.location.is_some() && node.ast_node_id.is_some()
    }));
}

#[test]
fn can_disable_control_flow_generation() {
    let mut given = options(&["/project/main.tolk"]);
    given.control_flow = ControlFlowScope::Off;
    let snapshot = inspect(&[("/project/main.tolk", "fun main() {}")], given);
    assert!(snapshot.control_flow_graphs.is_empty());
}

#[test]
fn control_flow_scope_excludes_or_includes_stdlib_graphs() {
    let files = [
        ("/project/main.tolk", "fun main() {}"),
        ("/project/stdlib/common.tolk", "fun stdlibHelper() {}"),
    ];
    let scoped = |control_flow: ControlFlowScope| {
        let mut given = options(&["/project/main.tolk"]);
        given.stdlib_root = Some("/project/stdlib".into());
        given.control_flow = control_flow;
        inspect(&files, given)
    };
    let workspace = scoped(ControlFlowScope::Workspace);
    let all = scoped(ControlFlowScope::All);

    assert_eq!(workspace.control_flow_graphs.len(), 1);
    assert_eq!(all.control_flow_graphs.len(), 2);
    assert!(workspace.control_flow_graphs.iter().all(|graph| {
        workspace
            .symbols
            .iter()
            .find(|symbol| symbol.id == graph.symbol_id)
            .is_some_and(|symbol| symbol.name != "stdlibHelper")
    }));
    assert!(all.control_flow_graphs.iter().any(|graph| {
        all.symbols
            .iter()
            .find(|symbol| symbol.id == graph.symbol_id)
            .is_some_and(|symbol| symbol.name == "stdlibHelper")
    }));
}

// A tree for a text with an error at one place.
fn with_error(source: &str, from: usize, to: usize) -> Options {
    let mut fault = node("ERROR", from, to, vec![]);
    fault.error = true;
    let root = node("source_file", 0, source.len(), vec![fault]);
    let mut given = options(&["/project/main.tolk"]);
    given.broken = Some((
        root,
        vec![ParseError {
            start_row: 0,
            start_column: from,
            end_row: 0,
            end_column: to,
            missing: false,
            message: "unexpected syntax".into(),
        }],
    ));
    given
}

#[test]
fn returns_partial_tree_with_parse_diagnostics() {
    let source = "fun main( { return 1; }";
    let snapshot = inspect(&[("/project/main.tolk", source)], with_error(source, 8, 9));
    assert!(!snapshot.nodes.is_empty());
    assert!(snapshot.diagnostics.iter().any(|diagnostic| diagnostic.phase == "parse"));
}

#[test]
fn follows_cyclic_imports_and_records_recursive_call_sites() {
    let snapshot = project(
        &[
            ("/project/a.tolk", "import \"b\"; fun alpha() { beta(); alpha(); }"),
            ("/project/b.tolk", "import \"a\"; fun beta() { alpha(); }"),
        ],
        &["/project/a.tolk"],
    );
    assert_eq!(snapshot.files.len(), 2);
    assert_eq!(snapshot.call_graph.len(), 3);
    assert!(snapshot.call_graph.iter().any(|edge| edge.caller == edge.callee));
}

#[test]
fn resolves_function_valued_locals_across_copies_branches_and_loops() {
    let source = r#"
fun first(value: int): int { return value; }
fun second(value: int): int { return value + 1; }

fun choose(flag: bool, value: int): int {
    var action = first;
    if (flag) {
        action = second;
    }
    var alias = action;
    while (flag) {
        alias = first;
    }
    return alias(value);
}

fun invoke(callback: (int) -> int, value: int): int {
    return callback(value);
}
"#;
    let mut given = options(&["/project/main.tolk"]);
    given.control_flow = ControlFlowScope::Off;
    let snapshot = inspect(&[("/project/main.tolk", source)], given);
    assert!(snapshot.control_flow_graphs.is_empty());

    let choose = global(&snapshot, "choose");
    let first = global(&snapshot, "first");
    let second = global(&snapshot, "second");
    let invoke = global(&snapshot, "invoke");

    let indirect = snapshot
        .call_sites
        .iter()
        .find(|call_site| call_site.caller == choose.id && call_site.dispatch == "indirect")
        .expect("resolved indirect call site");
    assert!(indirect.complete);
    assert_eq!(
        set(&indirect.targets),
        BTreeSet::from([first.id.clone(), second.id.clone()])
    );
    assert!(snapshot.call_graph.iter().any(|edge| {
        edge.caller == choose.id && edge.callee == first.id && edge.dispatch == "indirect"
    }));
    assert!(snapshot.call_graph.iter().any(|edge| {
        edge.caller == choose.id && edge.callee == second.id && edge.dispatch == "indirect"
    }));

    let unknown = snapshot
        .call_sites
        .iter()
        .find(|call_site| call_site.caller == invoke.id)
        .expect("unknown callback call site");
    assert_eq!(unknown.dispatch, "indirect");
    assert!(!unknown.complete);
    assert!(unknown.targets.is_empty());
}

#[test]
fn resolves_method_values_and_marks_partially_known_calls() {
    let source = r#"
fun int.increment(self): int { return self + 1; }
fun fallback(value: int): int { return value; }

fun viaMethod(value: int): int {
    val action = int.increment;
    return action(value);
}

fun maybe(flag: bool, callback: (int) -> int, value: int): int {
    var action = fallback;
    if (flag) {
        action = callback;
    }
    return action(value);
}
"#;
    let snapshot = project(&[("/project/main.tolk", source)], &["/project/main.tolk"]);
    let method = global(&snapshot, "increment");
    let via_method = global(&snapshot, "viaMethod");
    let method_call = snapshot
        .call_sites
        .iter()
        .find(|call_site| call_site.caller == via_method.id)
        .expect("method-valued local call");
    assert!(method_call.complete);
    assert_eq!(method_call.targets, vec![method.id.clone()]);

    let maybe = global(&snapshot, "maybe");
    let fallback = global(&snapshot, "fallback");
    let partial = snapshot
        .call_sites
        .iter()
        .find(|call_site| call_site.caller == maybe.id)
        .expect("partially known call");
    assert!(!partial.complete);
    assert_eq!(partial.targets, vec![fallback.id.clone()]);
    assert!(snapshot.call_graph.iter().any(|edge| {
        edge.caller == maybe.id && edge.callee == fallback.id && edge.dispatch == "indirect"
    }));
}

#[test]
fn resolves_wrapped_get_method_and_exceptional_callable_values() {
    let source = r#"
fun first(value: int): int { return value; }
fun second(value: int): int { return value + 1; }
fun identity<T>(value: T): T { return value; }
get fun current(): int { return 1; }

fun viaTernary(flag: bool, value: int): int {
    val action = flag ? first : second;
    return action(value);
}

fun viaParentheses(value: int): int {
    val action = (first);
    return action(value);
}

fun viaCast(value: int): int {
    val action = first as ((int) -> int);
    return action(value);
}

fun viaGeneric(value: int): int {
    val action = identity<int>;
    return action(value);
}

fun viaGetMethod(): int {
    val action = current;
    return action();
}

fun viaTry(value: int): int {
    var action = first;
    try {
        action = second;
    } catch {}
    return action(value);
}
"#;
    let snapshot = project(&[("/project/main.tolk", source)], &["/project/main.tolk"]);
    let target_ids = |caller: &str| {
        let caller = global(&snapshot, caller);
        let call_site = snapshot
            .call_sites
            .iter()
            .find(|call_site| call_site.caller == caller.id && call_site.dispatch == "indirect")
            .expect("indirect call site");
        assert!(call_site.complete);
        set(&call_site.targets)
    };

    let first = global(&snapshot, "first").id.clone();
    let second = global(&snapshot, "second").id.clone();
    let identity = global(&snapshot, "identity").id.clone();
    let current = global(&snapshot, "current").id.clone();
    assert_eq!(
        target_ids("viaTernary"),
        BTreeSet::from([first.clone(), second.clone()])
    );
    assert_eq!(target_ids("viaParentheses"), BTreeSet::from([first.clone()]));
    assert_eq!(target_ids("viaCast"), BTreeSet::from([first.clone()]));
    assert_eq!(target_ids("viaGeneric"), BTreeSet::from([identity]));
    assert_eq!(target_ids("viaGetMethod"), BTreeSet::from([current]));
    assert_eq!(target_ids("viaTry"), BTreeSet::from([first, second]));
}

#[test]
fn resolves_callables_from_returns_lambdas_and_containers() {
    let source = r#"
fun first(value: int): int { return value; }
fun second(value: int): int { return value + 1; }
fun factory(): ((int) -> int) { return first; }

fun viaReturn(value: int): int {
    val action = factory();
    return action(value);
}

fun viaLambda(value: int): int {
    val action = fun (inner: int): int { return inner; };
    return action(value);
}

fun viaContainer(value: int): int {
    val actions = (first, second);
    val action = actions.0;
    return action(value);
}
"#;
    let snapshot = project(&[("/project/main.tolk", source)], &["/project/main.tolk"]);
    let first = global(&snapshot, "first");
    let lambda = snapshot
        .symbols
        .iter()
        .find(|symbol| symbol.kind == "lambda")
        .expect("lambda symbol");
    assert!(lambda.flags.local);

    for (caller_name, target) in [
        ("viaReturn", &first.id),
        ("viaLambda", &lambda.id),
        ("viaContainer", &first.id),
    ] {
        let caller = global(&snapshot, caller_name);
        let call_site = snapshot
            .call_sites
            .iter()
            .find(|call_site| call_site.caller == caller.id && call_site.dispatch == "indirect")
            .expect("resolved indirect call site");
        assert!(call_site.complete);
        assert_eq!(call_site.targets.len(), 1);
        assert_eq!(&call_site.targets[0], target);
        assert!(snapshot
            .call_graph
            .iter()
            .any(|edge| edge.caller == caller.id && edge.callee == **target));
    }
}

#[test]
fn resolves_callbacks_through_recursive_forwarding_and_merged_callers() {
    let source = r#"
fun first(value: int): int { return value + 1; }
fun second(value: int): int { return value + 2; }

fun select(flag: bool): ((int) -> int) {
    return flag ? first : second;
}

fun bounce(callback: ((int) -> int), recurse: bool): ((int) -> int) {
    if (recurse) {
        return bounce(callback, false);
    }
    return callback;
}

fun invoke(callback: ((int) -> int), value: int): int {
    return callback(value);
}

fun primary(flag: bool, value: int): int {
    val selected = select(flag);
    val forwarded = bounce(selected, true);
    val firstResult = forwarded(value);
    return invoke(selected, firstResult);
}

fun secondary(value: int): int {
    return invoke(second, value);
}
"#;
    let snapshot = project(&[("/project/main.tolk", source)], &["/project/main.tolk"]);
    let expected = BTreeSet::from([
        global(&snapshot, "first").id.clone(),
        global(&snapshot, "second").id.clone(),
    ]);
    for caller_name in ["primary", "invoke"] {
        let caller = global(&snapshot, caller_name);
        let call = snapshot
            .call_sites
            .iter()
            .find(|call| call.caller == caller.id && call.dispatch == "indirect")
            .expect("indirect callback invocation");
        assert!(call.complete, "{} should be fully resolved", caller_name);
        assert_eq!(set(&call.targets), expected);
    }
}

#[test]
fn resolves_nested_containers_across_generic_parameter_and_return_boundaries() {
    let source = r#"
fun first(value: int): int { return value + 1; }
fun second(value: int): int { return value + 2; }
fun identity<T>(value: T): T { return value; }

fun audit(flag: bool, value: int): int {
    val routes = flag
        ? ((first, second), (second, first))
        : ((second, first), (first, second));
    val forwarded = identity(routes);
    val primary = forwarded.0.1;
    val fallback = forwarded.1.0;
    return primary(fallback(value));
}
"#;
    let snapshot = project(&[("/project/main.tolk", source)], &["/project/main.tolk"]);
    let audit = global(&snapshot, "audit");
    let expected = BTreeSet::from([
        global(&snapshot, "first").id.clone(),
        global(&snapshot, "second").id.clone(),
    ]);
    let indirect = snapshot
        .call_sites
        .iter()
        .filter(|call| call.caller == audit.id && call.dispatch == "indirect")
        .collect::<Vec<_>>();
    assert_eq!(indirect.len(), 2);
    for call in indirect {
        assert!(call.complete);
        assert_eq!(set(&call.targets), expected);
    }
}

#[test]
fn resolves_callable_array_elements_after_get_set_and_push() {
    let source = r#"
fun allow(value: int): int { return value + 1; }
fun reject(value: int): int { return value + 2; }
fun review(value: int): int { return value + 3; }
fun identity<T>(value: T): T { return value; }

fun audit(index: int, value: int): int {
    var handlers: array<(int) -> int> = [allow, reject];
    handlers.set(review, 1);
    handlers.push(reject);
    val forwarded = identity(handlers);
    val exact = forwarded.get(0);
    val pushed = forwarded.get(2);
    val selected = forwarded.get(index);
    return exact(pushed(selected(value)));
}
"#;
    let snapshot = project_with_stdlib(source);
    let indirect = known(&snapshot, "audit");
    assert_eq!(indirect.len(), 3);
    assert!(indirect.iter().all(|call| call.complete));
    assert_eq!(indirect[0].targets, vec![global(&snapshot, "allow").id.clone()]);
    assert_eq!(indirect[1].targets, vec![global(&snapshot, "reject").id.clone()]);
    assert_eq!(
        set(&indirect[2].targets),
        BTreeSet::from([
            global(&snapshot, "allow").id.clone(),
            global(&snapshot, "reject").id.clone(),
            global(&snapshot, "review").id.clone(),
        ])
    );
}

#[test]
fn resolves_callable_map_values_for_constant_and_dynamic_keys() {
    let source = r#"
const PRIMARY = 7;
fun allow(value: int): int { return value + 1; }
fun reject(value: int): int { return value + 2; }
fun identity<T>(value: T): T { return value; }
fun audit(key: int, flag: bool, value: int): int {
    var handlers: map<int, (int) -> int> = [];
    handlers.set(PRIMARY, allow);
    val exact = handlers.mustGet(PRIMARY);
    if (flag) {
        handlers.set(9, reject);
    }
    val forwarded = identity(handlers);
    val selected = forwarded.get(key).loadValue();
    return exact(selected(value));
}
"#;
    let snapshot = project_with_stdlib(source);
    let indirect = known(&snapshot, "audit");
    assert_eq!(indirect.len(), 2);
    assert!(indirect.iter().all(|call| call.complete));
    assert_eq!(indirect[0].targets, vec![global(&snapshot, "allow").id.clone()]);
    assert_eq!(
        set(&indirect[1].targets),
        BTreeSet::from([
            global(&snapshot, "allow").id.clone(),
            global(&snapshot, "reject").id.clone(),
        ])
    );
}

#[test]
fn keeps_dynamic_collection_writes_sound_and_external_collections_incomplete() {
    let source = r#"
fun allow(value: int): int { return value + 1; }
fun reject(value: int): int { return value + 2; }

fun knownMap(key: int, value: int): int {
    var handlers: map<int, (int) -> int> = [];
    handlers.set(1, allow);
    handlers.set(key, reject);
    return handlers.mustGet(1)(value);
}

fun externalArray(handlers: array<(int) -> int>, index: int, value: int): int {
    return handlers.get(index)(value);
}

fun externalMap(handlers: map<int, (int) -> int>, key: int, value: int): int {
    return handlers.mustGet(key)(value);
}
"#;
    let snapshot = project_with_stdlib(source);
    let known = known(&snapshot, "knownMap");
    let known = known.first().expect("known map callback call");
    assert!(known.complete);
    assert_eq!(
        set(&known.targets),
        BTreeSet::from([
            global(&snapshot, "allow").id.clone(),
            global(&snapshot, "reject").id.clone(),
        ])
    );

    for caller in ["externalArray", "externalMap"] {
        let call = snapshot
            .call_sites
            .iter()
            .find(|call| {
                call.caller == global(&snapshot, caller).id
                    && call.dispatch == "indirect"
                    && call.targets.is_empty()
            })
            .expect("external collection callback call");
        assert!(!call.complete);
    }
}

#[test]
fn widens_callable_collection_updates_across_branches_and_loops() {
    let source = r#"
fun allow(value: int): int { return value + 1; }
fun reject(value: int): int { return value + 2; }

fun audit(index: int, count: int, flag: bool, value: int): int {
    var handlers: array<(int) -> int> = [allow];
    if (flag) {
        handlers.push(reject);
    }
    var remaining = count;
    while (remaining > 0) {
        handlers.push(reject);
        remaining -= 1;
    }
    return handlers.get(index)(value);
}
"#;
    let snapshot = project_with_stdlib(source);
    let call = snapshot
        .call_sites
        .iter()
        .find(|call| call.caller == global(&snapshot, "audit").id && call.dispatch == "indirect")
        .expect("collection callback call");
    assert!(call.complete);
    assert_eq!(
        set(&call.targets),
        BTreeSet::from([
            global(&snapshot, "allow").id.clone(),
            global(&snapshot, "reject").id.clone(),
        ])
    );
}

#[test]
fn resolves_array_end_operations_and_chained_map_updates() {
    let source = r#"
fun allow(value: int): int { return value + 1; }
fun reject(value: int): int { return value + 2; }

fun arrayAudit(value: int): int {
    var handlers: array<(int) -> int> = [allow, reject];
    val first = handlers.first();
    val popped = handlers.pop();
    val last = handlers.last();
    return first(popped(last(value)));
}

fun mapAudit(value: int): int {
    var handlers: map<int, (int) -> int> = [];
    return handlers.set(3, reject).mustGet(3)(value);
}
"#;
    let snapshot = project_with_stdlib(source);
    let array_calls = known(&snapshot, "arrayAudit");
    assert_eq!(array_calls.len(), 3);
    assert_eq!(
        array_calls
            .iter()
            .filter(|call| call.targets == vec![global(&snapshot, "allow").id.clone()])
            .count(),
        2
    );
    assert_eq!(
        array_calls
            .iter()
            .filter(|call| call.targets == vec![global(&snapshot, "reject").id.clone()])
            .count(),
        1
    );

    let map_calls = known(&snapshot, "mapAudit");
    let map_call = map_calls.first().expect("chained map callback call");
    assert!(map_call.complete);
    assert_eq!(map_call.targets, vec![global(&snapshot, "reject").id.clone()]);
}

#[test]
fn propagates_collection_mutations_through_helper_parameters() {
    let source = r#"
fun allow(value: int): int { return value + 1; }
fun reject(value: int): int { return value + 2; }

fun append(mutate handlers: array<(int) -> int>, callback: ((int) -> int)) {
    handlers.push(callback);
}

fun register(
    mutate handlers: map<int, (int) -> int>,
    key: int,
    callback: ((int) -> int)
) {
    handlers.set(key, callback);
}

fun audit(value: int): int {
    var arrayHandlers: array<(int) -> int> = [allow];
    append(arrayHandlers, reject);
    var mapHandlers: map<int, (int) -> int> = [];
    register(mapHandlers, 4, reject);
    return arrayHandlers.get(1)(mapHandlers.mustGet(4)(value));
}
"#;
    let snapshot = project_with_stdlib(source);
    let calls = known(&snapshot, "audit");
    assert_eq!(calls.len(), 2);
    assert!(calls.iter().all(|call| call.complete));
    assert!(calls
        .iter()
        .all(|call| call.targets == vec![global(&snapshot, "reject").id.clone()]));
}

#[test]
fn resolves_returned_lambdas_in_locals_and_immediate_invocations() {
    let source = r#"
fun make(offset: int): ((int) -> int) {
    return fun (value: int): int { return value + offset; };
}

fun audit(value: int): int {
    val callback = make(1);
    val firstResult = callback(value);
    return make(2)(firstResult);
}
"#;
    let snapshot = project(&[("/project/main.tolk", source)], &["/project/main.tolk"]);
    let audit = global(&snapshot, "audit");
    let lambda = snapshot
        .symbols
        .iter()
        .find(|symbol| symbol.kind == "lambda")
        .expect("lambda symbol");
    let lambda_parameter = snapshot
        .symbols
        .iter()
        .find(|symbol| {
            symbol.name == "value"
                && symbol.flags.parameter
                && symbol.containing_symbol.as_ref() == Some(&lambda.id)
        })
        .expect("lambda parameter symbol");
    assert!(lambda_parameter.flags.local);
    let indirect = snapshot
        .call_sites
        .iter()
        .filter(|call| call.caller == audit.id && call.dispatch == "indirect")
        .collect::<Vec<_>>();
    assert_eq!(indirect.len(), 2);
    for call in indirect {
        assert!(call.complete);
        assert_eq!(call.targets, vec![lambda.id.clone()]);
    }
}

#[test]
fn attributes_captured_callback_calls_and_control_flow_to_lambda() {
    let source = r#"
fun allow(value: int): int { return value; }
fun reject(value: int): int { throw value; }

fun factory(flag: bool): ((int) -> int) {
    var captured = allow;
    if (flag) {
        captured = reject;
    }
    return fun (value: int): int {
        var callback = captured;
        var remaining = value;
        while (remaining > 0) {
            callback = captured;
            remaining -= 1;
        }
        return callback(remaining);
    };
}

fun audit(flag: bool, value: int): int {
    return factory(flag)(value);
}
"#;
    let snapshot = project(&[("/project/main.tolk", source)], &["/project/main.tolk"]);
    let lambda = snapshot
        .symbols
        .iter()
        .find(|symbol| symbol.kind == "lambda")
        .expect("lambda symbol");
    let callback_call = snapshot
        .call_sites
        .iter()
        .find(|call| call.caller == lambda.id && call.dispatch == "indirect")
        .expect("captured callback call");
    assert!(callback_call.complete);
    assert_eq!(
        set(&callback_call.targets),
        BTreeSet::from([
            global(&snapshot, "allow").id.clone(),
            global(&snapshot, "reject").id.clone(),
        ])
    );

    let graph = snapshot
        .control_flow_graphs
        .iter()
        .find(|graph| graph.symbol_id == lambda.id)
        .expect("lambda CFG");
    assert!(graph.edges.iter().any(|edge| edge.kind == "loopBack"));
    let captured = snapshot
        .symbols
        .iter()
        .find(|candidate| candidate.name == "captured")
        .expect("captured local symbol");
    assert!(graph.nodes.iter().any(|node| node.reads.contains(&captured.id)));
}

#[test]
fn resolves_nested_lambda_parameters_and_transitive_captures() {
    let source = r#"
fun allow(value: int): int { return value + 1; }
fun reject(value: int): int { return value + 2; }

fun makeBinder() {
    return fun (callback: ((int) -> int)): ((int) -> int) {
        return fun (value: int): int {
            return callback(value);
        };
    };
}

fun audit(value: int): int {
    val binder = makeBinder();
    val first = binder(allow);
    val second = binder(reject);
    return first(value) + second(value);
}
"#;
    let snapshot = project(&[("/project/main.tolk", source)], &["/project/main.tolk"]);
    let mut lambdas = snapshot
        .symbols
        .iter()
        .filter(|symbol| symbol.kind == "lambda")
        .collect::<Vec<_>>();
    lambdas.sort_by_key(|lambda| lambda.declaration.byte_range.start);
    assert_eq!(lambdas.len(), 2);
    assert_eq!(lambdas[1].containing_symbol.as_ref(), Some(&lambdas[0].id));

    let inner_call = snapshot
        .call_sites
        .iter()
        .find(|call| call.caller == lambdas[1].id)
        .expect("inner lambda callback call");
    assert!(inner_call.complete);
    assert_eq!(
        set(&inner_call.targets),
        BTreeSet::from([
            global(&snapshot, "allow").id.clone(),
            global(&snapshot, "reject").id.clone(),
        ])
    );

    for lambda in lambdas {
        assert!(snapshot
            .control_flow_graphs
            .iter()
            .any(|graph| graph.symbol_id == lambda.id));
    }
}

#[test]
fn captures_callable_values_at_lambda_creation_time() {
    let source = r#"
fun allow(value: int): int { return value; }
fun reject(value: int): int { return value + 1; }

fun audit(value: int): int {
    var action = allow;
    val callback = fun (inner: int): int {
        return action(inner);
    };
    action = reject;
    return callback(value);
}
"#;
    let snapshot = project(&[("/project/main.tolk", source)], &["/project/main.tolk"]);
    let lambda = snapshot
        .symbols
        .iter()
        .find(|symbol| symbol.kind == "lambda")
        .expect("lambda symbol");
    let allow = global(&snapshot, "allow");
    let call = snapshot
        .call_sites
        .iter()
        .find(|call| call.caller == lambda.id)
        .expect("captured call");
    assert!(call.complete);
    assert_eq!(call.targets, vec![allow.id.clone()]);
}

#[test]
fn resolves_callback_flow_across_file_and_struct_field_boundaries() {
    let library = r#"
struct Handlers {
    primary: ((int) -> int)
    fallback: ((int) -> int)
}

fun forward<T>(value: T): T { return value; }
"#;
    let application = r#"
import "handlers";

fun allow(value: int): int { return value; }
fun reject(value: int): int { throw value; }

fun audit(flag: bool, value: int): int {
    var handlers = Handlers { primary: allow, fallback: reject };
    if (flag) {
        handlers.primary = reject;
    }
    val forwarded = forward(handlers);
    return forwarded.primary(value);
}
"#;
    let snapshot = project(
        &[
            ("/project/handlers.tolk", library),
            ("/project/main.tolk", application),
        ],
        &["/project/main.tolk"],
    );
    let audit = global(&snapshot, "audit");
    let call = snapshot
        .call_sites
        .iter()
        .find(|call| call.caller == audit.id && call.dispatch == "indirect")
        .expect("struct-held callback call");
    assert!(call.complete);
    assert_eq!(
        set(&call.targets),
        BTreeSet::from([
            global(&snapshot, "allow").id.clone(),
            global(&snapshot, "reject").id.clone(),
        ])
    );
}

#[test]
fn leaves_a_truly_external_callback_origin_incomplete() {
    let source = r#"
fun forward(callback: ((int) -> int)): ((int) -> int) {
    return callback;
}

fun publicEntry(callback: ((int) -> int), value: int): int {
    val returned = forward(callback);
    return returned(value);
}
"#;
    let snapshot = project(&[("/project/main.tolk", source)], &["/project/main.tolk"]);
    let entry = global(&snapshot, "publicEntry");
    let call = snapshot
        .call_sites
        .iter()
        .find(|call| call.caller == entry.id && call.dispatch == "indirect")
        .expect("external callback call site");
    assert!(!call.complete);
    assert!(call.targets.is_empty());
}

#[test]
fn reports_missing_import_at_the_import_and_keeps_partial_results() {
    let snapshot = project(
        &[("/project/main.tolk", "import \"missing\"; fun main() {}")],
        &["/project/main.tolk"],
    );
    let diagnostic = snapshot
        .diagnostics
        .iter()
        .find(|item| item.code.as_deref() == Some("unresolved-import"))
        .unwrap();
    assert_eq!(
        diagnostic.location.as_ref().unwrap().byte_range,
        ByteRange { start: 0, end: 16 }
    );
    assert!(snapshot.symbols.iter().any(|symbol| symbol.name == "main"));
}

#[test]
fn parse_diagnostic_positions_use_utf16_not_utf8_columns() {
    let source = "fun main() { val text = \"😀\"; return ( }";
    let at: usize = source.rfind('(').unwrap();
    let snapshot = inspect(&[("/project/main.tolk", source)], with_error(source, at, at + 1));
    let location = snapshot
        .diagnostics
        .iter()
        .find(|item| item.phase == "parse")
        .and_then(|item| item.location.as_ref())
        .unwrap();
    assert_eq!(location.range.start.line, 0);
    assert!(location.byte_range.start > location.range.start.character);
}

#[test]
fn exposes_linter_diagnostics_annotations_and_fixes() {
    let source = "fun main() {\n    val unused = 1;\n}";
    let place = Span { start: 21, end: 27 };
    let mut given = options(&["/project/main.tolk"]);
    given.lints = vec![LintFact {
        file: 0,
        severity: LintSeverity::Warning,
        code: Some("E001".into()),
        message: "unused variable".into(),
        help: None,
        annotations: vec![LintAnnotation {
            span: place,
            message: Some("unused variable `unused`".into()),
            primary: true,
            tags: vec![LintTag::Unnecessary],
        }],
        fixes: vec![LintFix {
            message: "prefix the name with an underscore".into(),
            automatic: true,
            edits: vec![LintEdit { file: 0, span: place, replacement: "_unused".into() }],
        }],
    }];
    let snapshot = inspect(&[("/project/main.tolk", source)], given);
    let diagnostic = snapshot
        .diagnostics
        .iter()
        .find(|diagnostic| diagnostic.code.as_deref() == Some("E001"))
        .expect("unused variable diagnostic");

    assert_eq!(diagnostic.phase, "lint");
    assert_eq!(diagnostic.source, "tolk-linter");
    assert_eq!(diagnostic.severity, "warning");
    assert_eq!(
        diagnostic.location.as_ref().map(|location| location.path.as_str()),
        Some("/project/main.tolk")
    );
    assert!(diagnostic.annotations.iter().any(|annotation| {
        annotation.primary
            && annotation.tags.iter().any(|tag| tag == "unnecessary")
            && annotation.message.as_deref() == Some("unused variable `unused`")
    }));
    assert!(diagnostic.fixes.iter().any(|fix| {
        fix.applicability == "automatic"
            && fix.edits.iter().any(|edit| {
                edit.replacement == "_unused" && edit.location.path == "/project/main.tolk"
            })
    }));
}

#[test]
fn honors_linter_suppressions_and_does_not_lint_dependencies() {
    let mut given = options(&["/project/main.tolk"]);
    given.stdlib_root = Some("/project/stdlib".into());
    // The dependency is read first. A finding in it is not passed on.
    given.lints = vec![LintFact {
        file: 0,
        severity: LintSeverity::Warning,
        code: Some("E001".into()),
        message: "unused variable".into(),
        help: None,
        annotations: vec![LintAnnotation {
            span: Span { start: 19, end: 35 },
            message: None,
            primary: true,
            tags: vec![],
        }],
        fixes: vec![],
    }];
    let snapshot = inspect(
        &[
            (
                "/project/main.tolk",
                "fun main() {\n    // check-disable-next-line unused-variable\n    val localUnused = 1;\n}",
            ),
            (
                "/project/stdlib/common.tolk",
                "fun helper() { val dependencyUnused = 1; }",
            ),
        ],
        given,
    );

    assert!(!snapshot.diagnostics.iter().any(|diagnostic| {
        diagnostic.code.as_deref() == Some("E001")
            && diagnostic.location.as_ref().is_some_and(|location| {
                location.path == "/project/main.tolk"
                    || location.path == "/project/stdlib/common.tolk"
            })
    }));
}

#[test]
fn resolves_normalized_import_mappings_from_memory() {
    let mut given = options(&["main.tolk"]);
    given.mappings = vec![("pkg".into(), "/vendor".into())];
    let snapshot = inspect(
        &[
            (
                "/project/main.tolk",
                "import \"@pkg/lib\"; fun main() { mapped(); }",
            ),
            ("/vendor/lib.tolk", "fun mapped() { return; }"),
        ],
        given,
    );
    assert_eq!(snapshot.files.len(), 2);
    assert_eq!(snapshot.files[0].path, "/project/main.tolk");
    assert_eq!(
        snapshot.files[0].imports[0].target_path.as_deref(),
        Some("/vendor/lib.tolk")
    );
    assert_eq!(snapshot.call_graph.len(), 1);
}

fn only(snapshot: &ProjectSnapshot, call: &CallSite, name: &str) {
    assert!(call.complete);
    assert_eq!(call.targets, vec![global(snapshot, name).id.clone()]);
}

fn both(snapshot: &ProjectSnapshot, call: &CallSite) {
    assert!(call.complete);
    assert_eq!(
        set(&call.targets),
        BTreeSet::from([
            global(snapshot, "allow").id.clone(),
            global(snapshot, "reject").id.clone(),
        ])
    );
}

#[test]
fn replacing_in_a_map_hands_out_what_it_held() {
    for (method, now) in [
        ("setAndGetPrevious", "reject"),
        ("replaceAndGetPrevious", ""),
        ("addOrGetExisting", ""),
    ] {
        let source = format!(
            r#"
fun allow(value: int): int {{ return value + 1; }}
fun reject(value: int): int {{ return value + 2; }}
fun audit(value: int): int {{
    var handlers: map<int, (int) -> int> = [];
    handlers.set(1, allow);
    val held = handlers.{}(1, reject).loadValue();
    val now = handlers.mustGet(1);
    return held(now(value));
}}
"#,
            method
        );
        let snapshot = project_with_stdlib(&source);
        let calls = known(&snapshot, "audit");
        assert_eq!(calls.len(), 2);
        only(&snapshot, calls[0], "allow");
        if now == "reject" {
            only(&snapshot, calls[1], "reject");
        } else {
            both(&snapshot, calls[1]);
        }
    }
}

#[test]
fn deleting_from_a_map_hands_out_what_it_held() {
    let source = r#"
fun allow(value: int): int { return value + 1; }
fun audit(value: int): int {
    var handlers: map<int, (int) -> int> = [];
    handlers.set(1, allow);
    val held = handlers.deleteAndGetDeleted(1).loadValue();
    return held(handlers.mustGet(1)(value));
}
fun other(value: int): int {
    var handlers: map<int, (int) -> int> = [];
    handlers.set(1, allow);
    handlers.delete(1);
    return handlers.mustGet(1)(value);
}
"#;
    let snapshot = project_with_stdlib(source);
    let calls = known(&snapshot, "audit");
    assert_eq!(calls.len(), 1);
    only(&snapshot, calls[0], "allow");
    assert!(known(&snapshot, "other").is_empty());
}

#[test]
fn searching_a_map_may_find_any_value() {
    for method in ["findFirst()", "findKeyGreater(value)", "iterateNext(value)"] {
        let source = format!(
            r#"
fun allow(value: int): int {{ return value + 1; }}
fun reject(value: int): int {{ return value + 2; }}
fun audit(value: int): int {{
    var handlers: map<int, (int) -> int> = [];
    handlers.set(1, allow);
    handlers.set(2, reject);
    return handlers.{}.loadValue()(value);
}}
"#,
            method
        );
        let snapshot = project_with_stdlib(&source);
        let calls = known(&snapshot, "audit");
        assert_eq!(calls.len(), 1);
        both(&snapshot, calls[0]);
    }
}

#[test]
fn library_functions_make_collections() {
    let source = r#"
fun allow(value: int): int { return value + 1; }
fun reject(value: int): int { return value + 2; }
fun made(value: int): int {
    var handlers: map<int, (int) -> int> = createEmptyMap();
    handlers.set(1, allow);
    return handlers.mustGet(1)(value);
}
fun converted(value: int): int {
    var handlers: map<int, (int) -> int> = createEmptyMap();
    handlers.set(1, allow);
    var copy: map<int, (int) -> int> = createMapFromLowLevelDict(handlers.toLowLevelDict());
    copy.set(2, reject);
    return copy.mustGet(1)(copy.mustGet(2)(value));
}
"#;
    let library = format!(
        "{}\nfun createEmptyMap<K, V>(): map<K, V> builtin\nfun createMapFromLowLevelDict<K, V>(d: cell?): map<K, V> builtin\n",
        COMMON
    );
    let snapshot = project_with_library(source, &library);
    let calls = known(&snapshot, "made");
    assert_eq!(calls.len(), 1);
    only(&snapshot, calls[0], "allow");
    let calls = known(&snapshot, "converted");
    assert_eq!(calls.len(), 2);
    only(&snapshot, calls[0], "allow");
    only(&snapshot, calls[1], "reject");
    // A function of the same name outside the library makes nothing.
    let own = format!("{}\nfun createEmptyMap() {{ return; }}\n", source);
    let snapshot = project_with_stdlib(&own);
    let calls = known(&snapshot, "made");
    assert_eq!(calls.len(), 1);
    assert_eq!(calls[0].targets, vec![global(&snapshot, "allow").id.clone()]);
}

#[test]
fn lists_keep_their_heads_in_order() {
    let source = r#"
fun allow(value: int): int { return value + 1; }
fun reject(value: int): int { return value + 2; }
fun audit(handlers: lisp_list<(int) -> int>, value: int): int {
    var list = handlers;
    list.prependHead(allow);
    list.prependHead(reject);
    val head = list.getHead();
    val popped = list.popHead();
    val next = list.getHead();
    return head(popped(next(value)));
}
fun literal(value: int): int {
    val list: lisp_list<(int) -> int> = [allow, [reject, null]] as lisp_list<(int) -> int>;
    val rest: lisp_list<(int) -> int> = list.getTail();
    return list.getHead()(rest.getHead()(value));
}
"#;
    let snapshot = project_with_stdlib(source);
    let calls = known(&snapshot, "audit");
    assert_eq!(calls.len(), 3);
    only(&snapshot, calls[0], "reject");
    only(&snapshot, calls[1], "reject");
    only(&snapshot, calls[2], "allow");
    let calls = known(&snapshot, "literal");
    assert_eq!(calls.len(), 2);
    only(&snapshot, calls[0], "allow");
    only(&snapshot, calls[1], "reject");
}

#[test]
fn assigning_to_several_targets_at_once_gives_each_its_part() {
    let source = r#"
fun allow(value: int): int { return value + 1; }
fun reject(value: int): int { return value + 2; }
fun audit(value: int): int {
    var a = reject;
    var b = reject;
    (a, b) = (allow, reject);
    return a(b(value));
}
fun nested(value: int): int {
    var a = reject;
    var b = allow;
    [a, (b, a)] = [reject, (reject, allow)];
    return a(b(value));
}
"#;
    let snapshot = project(&[("/project/main.tolk", source)], &["/project/main.tolk"]);
    let calls = known(&snapshot, "audit");
    assert_eq!(calls.len(), 2);
    only(&snapshot, calls[0], "allow");
    only(&snapshot, calls[1], "reject");
    let calls = known(&snapshot, "nested");
    assert_eq!(calls.len(), 2);
    only(&snapshot, calls[0], "allow");
    only(&snapshot, calls[1], "reject");
}

#[test]
fn declaring_several_locals_at_once_gives_each_its_part() {
    let source = r#"
fun allow(value: int): int { return value + 1; }
fun reject(value: int): int { return value + 2; }
fun audit(value: int): int {
    val (a, b: int) = (allow, reject);
    return a(b(value));
}
fun nested(value: int): int {
    val [a, (b, c)] = [reject, (allow, reject)];
    return a(b(c(value)));
}
fun grouped(value: int): int {
    val (a) = allow;
    return a(value);
}
fun opaque(pair: (int, int), value: int): int {
    val (a, b) = pair;
    return a(b(value));
}
"#;
    let snapshot = project(&[("/project/main.tolk", source)], &["/project/main.tolk"]);
    let calls = known(&snapshot, "audit");
    assert_eq!(calls.len(), 2);
    only(&snapshot, calls[0], "allow");
    only(&snapshot, calls[1], "reject");
    let calls = known(&snapshot, "nested");
    assert_eq!(calls.len(), 3);
    only(&snapshot, calls[0], "reject");
    only(&snapshot, calls[1], "allow");
    only(&snapshot, calls[2], "reject");
    let calls = known(&snapshot, "grouped");
    assert_eq!(calls.len(), 1);
    only(&snapshot, calls[0], "allow");
    let calls = indirect(&snapshot, "opaque");
    assert_eq!(calls.len(), 2);
    assert!(calls.iter().all(|call| !call.complete && call.targets.is_empty()));
}

#[test]
fn source_defined_helpers_pass_elements_to_their_callbacks() {
    let source = r#"
fun array<T>.each(self, callback: (T) -> int) {
    var i = 0;
    while (i > 0) {
        callback(self.get(i));
        i += 1;
    }
}
fun allow(value: int): int { return value + 1; }
fun reject(value: int): int { return value + 2; }
fun run(action: (int) -> int): int { return action(1); }
fun audit() {
    val handlers: array<(int) -> int> = [allow, reject];
    handlers.each<int>(run);
}
"#;
    let snapshot = project_with_stdlib(source);
    let calls = known(&snapshot, "each");
    assert_eq!(calls.len(), 1);
    only(&snapshot, calls[0], "run");
    let calls = known(&snapshot, "run");
    assert_eq!(calls.len(), 1);
    both(&snapshot, calls[0]);
}

#[test]
fn packing_forgets_which_field_is_which() {
    let source = r#"
struct Handlers {
    primary: (int) -> int
    fallback: (int) -> int
}
fun allow(value: int): int { return value + 1; }
fun reject(value: int): int { return value + 2; }
fun audit(value: int): int {
    val handlers = Handlers { primary: allow, fallback: reject };
    val packed = handlers.toTuple();
    val unpacked = Handlers.fromTuple(packed);
    return unpacked.primary(value);
}
"#;
    let library = format!(
        "{}\nfun T.toTuple(self): unknown builtin\nfun T.fromTuple(packed: unknown): T builtin\n",
        COMMON
    );
    let snapshot = project_with_library(source, &library);
    let calls = known(&snapshot, "audit");
    assert_eq!(calls.len(), 1);
    both(&snapshot, calls[0]);
}

#[test]
fn known_and_unknown_values_stay_apart_from_complete_ones() {
    let source = r#"
fun allow(value: int): int { return value + 1; }
fun reject(value: int): int { return value + 2; }
fun pair(): int { return (allow, reject); }
fun optional(handlers: map<int, (int) -> int>, value: int): int {
    var mine = handlers;
    mine.addIfNotExists(1, allow);
    return mine.mustGet(1)(value);
}
fun partial(flag: bool, factory: () -> int, value: int): int {
    var make = pair;
    if (flag) {
        make = factory;
    }
    val made = make();
    return made.0(value);
}
"#;
    let snapshot = project_with_stdlib(source);
    for caller in ["optional", "partial"] {
        let calls = known(&snapshot, caller);
        let last = calls.last().unwrap();
        assert!(!last.complete);
        let targets = if caller == "optional" {
            set(&last.targets)
        } else {
            set(&calls[1].targets)
        };
        assert_eq!(targets, BTreeSet::from([global(&snapshot, "allow").id.clone()]));
    }
}

#[test]
fn branches_and_factories_select_handlers() {
    let source = r#"
fun allow(value: int): int { return value; }
fun reject(value: int): int { throw 403; }
fun forward<T>(value: T): T { return value; }

fun dispatch(shouldReject: bool, value: int): int {
    var handler = allow;
    if (shouldReject) {
        handler = reject;
    }
    return handler(value);
}

fun run(value: int): int {
    val callback = forward(allow);
    return callback(value);
}
"#;
    let snapshot = project(&[("/project/main.tolk", source)], &["/project/main.tolk"]);
    let calls = known(&snapshot, "dispatch");
    assert_eq!(calls.len(), 1);
    both(&snapshot, calls[0]);
    let calls = known(&snapshot, "run");
    assert_eq!(calls.len(), 1);
    only(&snapshot, calls[0], "allow");
}

#[test]
fn instantiated_methods_work_on_their_receiver() {
    let source = r#"
fun allow(value: int): int { return value + 1; }
fun audit(value: int): int {
    var handlers: array<(int) -> int> = [allow];
    return handlers.get<int>(0)(value);
}
"#;
    let snapshot = project_with_stdlib(source);
    let calls = known(&snapshot, "audit");
    assert_eq!(calls.len(), 1);
    only(&snapshot, calls[0], "allow");
}

#[test]
fn calls_that_no_path_reaches_are_recorded_too() {
    let source = r#"
fun allow(value: int): int { return value + 1; }
fun audit(value: int): int {
    val action = allow;
    return value;
    allow(value);
    action(value);
}
"#;
    let snapshot = project(&[("/project/main.tolk", source)], &["/project/main.tolk"]);
    let audit = global(&snapshot, "audit");
    let calls: Vec<&CallSite> =
        snapshot.call_sites.iter().filter(|call| call.caller == audit.id).collect();
    assert_eq!(calls.len(), 2);
    assert_eq!(calls[0].dispatch, "direct");
    only(&snapshot, calls[0], "allow");
    assert_eq!(calls[1].dispatch, "indirect");
    assert!(!calls[1].complete);
    assert!(calls[1].targets.is_empty());
    assert_eq!(snapshot.call_graph.len(), 1);
}

#[test]
fn graphs_can_be_left_out_without_changing_anything_else() {
    let source = r#"
fun allow(value: int): int { return value + 1; }
fun audit(flag: bool, value: int): int {
    var action = allow;
    if (flag) {
        action = fun (inner: int): int { return allow(inner); };
    }
    return action(value);
}
"#;
    let scoped = |control_flow: ControlFlowScope| {
        let mut given = options(&["/project/main.tolk"]);
        given.control_flow = control_flow;
        inspect(&[("/project/main.tolk", source)], given)
    };
    let with = scoped(ControlFlowScope::Workspace);
    let without = scoped(ControlFlowScope::Off);
    assert_eq!(with.control_flow_graphs.len(), 3);
    assert!(without.control_flow_graphs.is_empty());
    assert_eq!(format!("{:?}", with.call_sites), format!("{:?}", without.call_sites));
    assert_eq!(format!("{:?}", with.symbols), format!("{:?}", without.symbols));
    assert_eq!(format!("{:?}", with.references), format!("{:?}", without.references));
    assert_eq!(format!("{:?}", with.nodes), format!("{:?}", without.nodes));
}

#[test]
fn every_caller_and_target_is_a_listed_symbol() {
    let source = r#"
fun allow(value: int): int { return value + 1; }
fun audit(value: int): int {
    val inner = fun (callback: (int) -> int): int { return callback(value); };
    return inner(allow);
}
"#;
    let snapshot = project(&[("/project/main.tolk", source)], &["/project/main.tolk"]);
    let ids: BTreeSet<&String> = snapshot.symbols.iter().map(|symbol| &symbol.id).collect();
    assert_eq!(snapshot.call_sites.len(), 2);
    for call in &snapshot.call_sites {
        assert!(ids.contains(&call.caller));
        assert_eq!(call.targets.len(), 1);
        assert!(ids.contains(&call.targets[0]));
    }
    for edge in &snapshot.call_graph {
        assert!(ids.contains(&edge.caller));
        assert!(ids.contains(&edge.callee));
    }
}

#[test]
fn trees_link_parents_and_children_both_ways() {
    let source = "fun main() { return 1; }";
    let snapshot = project(&[("/project/main.tolk", source)], &["/project/main.tolk"]);
    let root = snapshot
        .nodes
        .iter()
        .find(|node| node.id == snapshot.files[0].root_node)
        .unwrap();
    assert_eq!(root.kind, "sourceFile");
    assert_eq!(root.raw_kind, "source_file");
    assert!(root.parent_id.is_none());
    for node in &snapshot.nodes {
        for child in &node.child_ids {
            let child = snapshot.nodes.iter().find(|other| &other.id == child).unwrap();
            assert_eq!(child.parent_id.as_ref(), Some(&node.id));
        }
    }
    let number = snapshot.nodes.iter().find(|node| node.kind == "numberLiteral").unwrap();
    assert_eq!(number.text, "1");
}

#[test]
fn expressions_have_the_types_that_were_found() {
    let source = r#"
fun audit(handlers: array<(int) -> int>): int {
    val copy = handlers;
    return 0;
}
"#;
    let snapshot = project_with_stdlib(source);
    assert_eq!(snapshot.node_types.len(), 1);
    let found = &snapshot.node_types[0];
    let listed = snapshot.types.iter().find(|kind| kind.id == found.type_id).unwrap();
    assert_eq!(listed.display, "array<int>");
    assert_eq!(listed.kind, "array");
    let node = snapshot.nodes.iter().find(|node| node.id == found.node_id).unwrap();
    assert_eq!(node.text, "handlers");
}

#[test]
fn unresolved_names_are_reported_where_they_stand() {
    let source = "fun main() { missing(); }";
    let snapshot = project(&[("/project/main.tolk", source)], &["/project/main.tolk"]);
    let reference = snapshot.references.iter().find(|item| item.name == "missing").unwrap();
    assert!(reference.symbol_id.is_none());
    let resolution = snapshot
        .resolutions
        .iter()
        .find(|item| Some(&item.node_id) == reference.node_id.as_ref())
        .unwrap();
    assert!(!resolution.resolved);
    assert!(resolution.symbol_id.is_none());
    let diagnostic = snapshot
        .diagnostics
        .iter()
        .find(|item| item.code.as_deref() == Some("unresolved-name"))
        .expect("a diagnostic of the unresolved name");
    assert_eq!(diagnostic.phase, "resolution");
    assert_eq!(diagnostic.severity, "warning");
    assert_eq!(diagnostic.message, "unresolved value name `missing`");
    assert_eq!(
        diagnostic.location.as_ref().unwrap().byte_range,
        ByteRange { start: 13, end: 20 }
    );
}

fn empty_facts() -> ProjectFacts {
    ProjectFacts {
        root: normalize_path("/project").unwrap(),
        files: Vec::new(),
        types: Vec::new(),
        errors: Vec::new(),
        lints: Vec::new(),
        control_flow: ControlFlowScope::Workspace,
    }
}

fn one_file(source: &str) -> FileFacts {
    let text = source.to_string();
    let source = Source {
        id: 0,
        path: "/project/main.tolk".into(),
        root: Reader::new(&text).file(),
        text,
        kind: SourceKind::Workspace,
        errors: Vec::new(),
    };
    let mut globals: BTreeMap<String, Vec<Global>> = BTreeMap::new();
    globals_of(&source, &mut globals);
    facts_of(source, &globals, Vec::new())
}

#[test]
fn an_edit_in_an_unknown_file_is_refused() {
    let place = Span { start: 0, end: 1 };
    let edited = |file: u32| {
        let mut facts = empty_facts();
        facts.files = vec![one_file("fun main() {}")];
        facts.lints = vec![LintFact {
            file: 0,
            severity: LintSeverity::Fatal,
            code: None,
            message: "a finding".into(),
            help: Some("what to do".into()),
            annotations: vec![],
            fixes: vec![LintFix {
                message: "a fix".into(),
                automatic: false,
                edits: vec![LintEdit { file, span: place, replacement: String::new() }],
            }],
        }];
        build(facts)
    };
    assert!(matches!(edited(9), Err(InspectError::UnknownFile)));
    let snapshot = edited(0).unwrap();
    assert_eq!(snapshot.diagnostics.len(), 1);
    assert_eq!(snapshot.diagnostics[0].severity, "error");
    assert_eq!(snapshot.diagnostics[0].fixes[0].applicability, "manual");
}

#[test]
fn a_type_that_is_not_listed_is_refused() {
    let mut facts = empty_facts();
    facts.types = vec![TypeFact { data: TypeData::Array(1), display: "array".into(), unaliased: 0 }];
    assert!(matches!(build(facts), Err(InspectError::UnknownType)));

    let mut facts = empty_facts();
    let mut file = one_file("fun main() { return 1; }");
    file.bodies = vec![BodyFacts {
        expressions: vec![ExpressionFact { span: Span { start: 20, end: 21 }, type_number: 0 }],
        uses: vec![],
    }];
    facts.files = vec![file];
    assert!(matches!(build(facts), Err(InspectError::UnknownType)));
}

#[test]
fn a_graph_that_lacks_its_nodes_is_refused() {
    let mut facts = empty_facts();
    let mut file = one_file("fun main() {}");
    file.symbols[0].graph.as_mut().unwrap().exit = 5;
    facts.files = vec![file];
    assert!(matches!(build(facts), Err(InspectError::BrokenGraph)));

    let mut facts = empty_facts();
    let mut file = one_file("fun main() {}");
    file.symbols[0].graph.as_mut().unwrap().edges.push(FlowEdge {
        from: 0,
        to: 7,
        kind: EdgeKind::Unconditional,
    });
    facts.files = vec![file];
    assert!(matches!(build(facts), Err(InspectError::BrokenGraph)));
}

#[test]
fn an_empty_project_has_an_empty_snapshot() {
    let mut facts = empty_facts();
    facts.errors = vec!["no library".into()];
    let snapshot = build(facts).unwrap();
    assert!(snapshot.files.is_empty());
    assert!(snapshot.nodes.is_empty());
    assert!(snapshot.call_sites.is_empty());
    assert_eq!(snapshot.diagnostics.len(), 1);
    assert_eq!(snapshot.diagnostics[0].message, "no library");
    assert!(snapshot.diagnostics[0].location.is_none());
}

#[test]
fn calls_of_an_unsettled_program_are_not_complete() {
    let text = |wrapped: &str| {
        format!(
            r#"
fun allow(value: int): int {{ return value + 1; }}
fun wrap(held: (int) -> int, value: int): int {{ return wrap({}, value); }}
fun audit(value: int): int {{
    val chosen = allow;
    return wrap(allow, chosen(value));
}}
"#,
            wrapped
        )
    };
    // Each pass wraps the parameter once more, so that no pass repeats the one before.
    let growing = text("(held, value)");
    let snapshot = project(&[("/project/main.tolk", &growing)], &["/project/main.tolk"]);
    let calls = indirect(&snapshot, "audit");
    assert_eq!(calls.len(), 1);
    assert_eq!(calls[0].targets, vec![global(&snapshot, "allow").id.clone()]);
    assert!(!calls[0].complete);
    let direct = snapshot.call_sites.iter().filter(|call| call.dispatch == "direct");
    assert!(direct.clone().count() > 0);
    assert!(direct.clone().all(|call| call.complete));
    let steady = text("held");
    let snapshot = project(&[("/project/main.tolk", &steady)], &["/project/main.tolk"]);
    let calls = indirect(&snapshot, "audit");
    assert_eq!(calls.len(), 1);
    only(&snapshot, calls[0], "allow");
}

#[test]
fn number_keys_go_by_value() {
    let text = |stored: &str, read: &str| {
        format!(
            r#"
const WIDE = 18446744073709551616;
const NARROW = 16;
fun allow(value: int): int {{ return value + 1; }}
fun reject(value: int): int {{ return value + 2; }}
fun audit(value: int): int {{
    var handlers: map<int, (int) -> int> = [];
    handlers.set(5, reject);
    handlers.set({}, allow);
    return handlers.mustGet({})(value);
}}
"#,
            stored, read
        )
    };
    // Within 64 bits a number selects one entry, however it is spelled.
    for (stored, read) in [("16", "0x10"), ("0x10", "16"), ("0x10", "NARROW"), ("NARROW", "016")] {
        let snapshot = project_with_stdlib(&text(stored, read));
        let calls = known(&snapshot, "audit");
        assert_eq!(calls.len(), 1);
        only(&snapshot, calls[0], "allow");
    }
    // Beyond 64 bits it may select every entry, and what it stores may lie under every key.
    for (stored, read) in [
        ("0x10000000000000000", "18446744073709551616"),
        ("18446744073709551616", "0x10000000000000000"),
        ("WIDE", "0x10000000000000000"),
    ] {
        let snapshot = project_with_stdlib(&text(stored, read));
        let calls = known(&snapshot, "audit");
        assert_eq!(calls.len(), 1);
        both(&snapshot, calls[0]);
    }
    // A constant still has its own entry.
    let snapshot = project_with_stdlib(&text("0x10000000000000000", "WIDE"));
    let calls = known(&snapshot, "audit");
    assert_eq!(calls.len(), 1);
    assert!(calls[0].targets.contains(&global(&snapshot, "allow").id));
    let snapshot = project_with_stdlib(&text("WIDE", "WIDE"));
    let calls = known(&snapshot, "audit");
    assert_eq!(calls.len(), 1);
    only(&snapshot, calls[0], "allow");
}
