//! What symbols, locals and places in source text are known by.
use crate::sort::Ranked;
use crate::tables::Key;
use vstd::prelude::*;

verus! {

/// A declared symbol: the file that declares it, and its number there.
#[derive(Debug, Clone, Copy, PartialEq, Eq, Structural)]
pub struct SymbolRef {
    pub file: u32,
    pub local: u32,
}

/// A local definition: the file that holds it, and its number there.
#[derive(Debug, Clone, Copy, PartialEq, Eq, Structural)]
pub struct LocalRef {
    pub file: u32,
    pub local: u32,
}

/// A range of bytes in a file.
#[derive(Debug, Clone, Copy, PartialEq, Eq, Structural)]
pub struct Span {
    pub start: u32,
    pub end: u32,
}

/// A range of bytes in a given file.
#[derive(Debug, Clone, Copy, PartialEq, Eq, Structural)]
pub struct SpanKey {
    pub file: u32,
    pub start: u32,
    pub end: u32,
}

/// What a name stands for.
#[derive(Debug, Clone, Copy, PartialEq, Eq, Structural)]
pub enum Resolved {
    Global(SymbolRef),
    Local(LocalRef),
    Unresolved,
}

impl View for SymbolRef {
    type V = SymbolRef;

    open spec fn view(&self) -> SymbolRef {
        *self
    }
}

impl View for LocalRef {
    type V = LocalRef;

    open spec fn view(&self) -> LocalRef {
        *self
    }
}

impl View for SpanKey {
    type V = SpanKey;

    open spec fn view(&self) -> SpanKey {
        *self
    }
}

impl Ranked for u32 {
    open spec fn before(a: u32, b: u32) -> bool {
        a < b
    }

    fn is_before(&self, other: &Self) -> (r: bool) {
        *self < *other
    }

    proof fn weak_order(a: u32, b: u32, c: u32) {
    }
}

impl Key for u32 {
    proof fn total(a: u32, b: u32) {
    }

    fn copy(&self) -> (r: Self) {
        *self
    }
}

impl Ranked for SymbolRef {
    open spec fn before(a: SymbolRef, b: SymbolRef) -> bool {
        a.file < b.file || (a.file == b.file && a.local < b.local)
    }

    fn is_before(&self, other: &Self) -> (r: bool) {
        self.file < other.file || (self.file == other.file && self.local < other.local)
    }

    proof fn weak_order(a: SymbolRef, b: SymbolRef, c: SymbolRef) {
    }
}

impl Key for SymbolRef {
    proof fn total(a: SymbolRef, b: SymbolRef) {
    }

    fn copy(&self) -> (r: Self) {
        *self
    }
}

impl Ranked for LocalRef {
    open spec fn before(a: LocalRef, b: LocalRef) -> bool {
        a.file < b.file || (a.file == b.file && a.local < b.local)
    }

    fn is_before(&self, other: &Self) -> (r: bool) {
        self.file < other.file || (self.file == other.file && self.local < other.local)
    }

    proof fn weak_order(a: LocalRef, b: LocalRef, c: LocalRef) {
    }
}

impl Key for LocalRef {
    proof fn total(a: LocalRef, b: LocalRef) {
    }

    fn copy(&self) -> (r: Self) {
        *self
    }
}

impl Ranked for SpanKey {
    open spec fn before(a: SpanKey, b: SpanKey) -> bool {
        a.file < b.file || (a.file == b.file && (a.start < b.start || (a.start == b.start && a.end
            < b.end)))
    }

    fn is_before(&self, other: &Self) -> (r: bool) {
        self.file < other.file || (self.file == other.file && (self.start < other.start || (
        self.start == other.start && self.end < other.end)))
    }

    proof fn weak_order(a: SpanKey, b: SpanKey, c: SpanKey) {
    }
}

impl Key for SpanKey {
    proof fn total(a: SpanKey, b: SpanKey) {
    }

    fn copy(&self) -> (r: Self) {
        *self
    }
}

} // verus!
