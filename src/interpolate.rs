//! A parsed template together with the shape of the variant it describes.
use vstd::prelude::*;
use crate::catalogue::Catalogue;
use crate::model::{catalogue, prefix, rewritten};
use crate::parser::parse_internal;
use crate::text::{decimal, push_decimal, string_of};

verus! {

/// How the fields of a variant are declared.
pub enum FieldShape {
    /// No fields.
    Unit,
    /// The given number of fields, addressed by position.
    Unnamed(usize),
    /// Fields addressed by these names, in declaration order.
    Named(Vec<String>),
}

/// A variant of a tagged union: its name and its field shape.
pub struct VariantShape {
    pub name: String,
    pub fields: FieldShape,
}

/// A template parsed for one variant.
pub struct Interpolate {
    /// The variant whose template this is.
    pub variant: VariantShape,
    /// The template with every placeholder's field rewritten to its key:
    /// names stay, positional fields become `__0`, `__1`, ...
    pub rewritten_text: String,
    /// The keys referenced by the template, with their trait annotations.
    pub identifiers: Catalogue,
}

/// The key of the field at position `p`.
pub open spec fn positional_key(p: nat) -> Seq<char> {
    prefix() + decimal(p)
}

/// The names bound by a match pattern over a variant of shape `fields` so
/// that a template with catalogue `cat` can be rendered: for positional
/// fields, the key of each position that the template uses and `_` for the
/// others; for named fields, every name.
pub open spec fn pattern_bindings_of(
    fields: FieldShape,
    cat: Map<Seq<char>, Option<Seq<char>>>,
) -> Seq<Seq<char>> {
    match fields {
        FieldShape::Unit => Seq::empty(),
        FieldShape::Unnamed(n) => Seq::new(
            n as nat,
            |p: int|
                if cat.contains_key(positional_key(p as nat)) {
                    positional_key(p as nat)
                } else {
                    seq!['_']
                },
        ),
        FieldShape::Named(names) => names@.map(|i: int, s: String| s@),
    }
}

impl Interpolate {
    /// Parses `fmt_text`, the template of `variant`.
    pub fn parse(fmt_text: &str, variant: VariantShape) -> (r: Interpolate)
        ensures
            r.variant == variant,
            r.rewritten_text@ == rewritten(fmt_text@),
            r.identifiers.wf(),
            r.identifiers@ == catalogue(fmt_text@),
    {
        let (rewritten_text, identifiers) = parse_internal(fmt_text);
        Interpolate { variant, rewritten_text, identifiers }
    }

    /// The names that a match pattern over the variant binds, in field order.
    pub fn pattern_bindings(&self) -> (r: Vec<String>)
        requires
            self.identifiers.wf(),
        ensures
            r@.map(|i: int, s: String| s@) == pattern_bindings_of(self.variant.fields, self.identifiers@),
    {
        let mut r: Vec<String> = Vec::new();
        match &self.variant.fields {
            FieldShape::Unit => {},
            FieldShape::Unnamed(n) => {
                let n = *n;
                let mut p: usize = 0;
                while p < n
                    invariant
                        p <= n,
                        self.identifiers.wf(),
                        self.variant.fields == FieldShape::Unnamed(n),
                        r@.map(|i: int, s: String| s@)
                            == pattern_bindings_of(self.variant.fields, self.identifiers@).take(p as int),
                    decreases n - p,
                {
                    let mut key: Vec<char> = Vec::new();
                    key.push('_');
                    key.push('_');
                    push_decimal(&mut key, p);
                    assert(key@ =~= positional_key(p as nat));
                    let key = string_of(&key);
                    let ghost before = r@;
                    let used = self.identifiers.contains_key(&key);
                    let item = if used {
                        key
                    } else {
                        let mut blank: Vec<char> = Vec::new();
                        blank.push('_');
                        assert(blank@ =~= seq!['_']);
                        string_of(&blank)
                    };
                    assert(item@ == pattern_bindings_of(self.variant.fields, self.identifiers@)[p as int]);
                    r.push(item);
                    assert(r@.map(|i: int, s: String| s@) =~= before.map(|i: int, s: String| s@).push(
                        pattern_bindings_of(self.variant.fields, self.identifiers@)[p as int],
                    ));
                    assert(pattern_bindings_of(self.variant.fields, self.identifiers@).take(p + 1)
                        =~= pattern_bindings_of(self.variant.fields, self.identifiers@).take(p as int).push(
                        pattern_bindings_of(self.variant.fields, self.identifiers@)[p as int],
                    ));
                    p = p + 1;
                }
                assert(pattern_bindings_of(self.variant.fields, self.identifiers@).take(n as int)
                    =~= pattern_bindings_of(self.variant.fields, self.identifiers@));
            },
            FieldShape::Named(names) => {
                let mut p: usize = 0;
                while p < names.len()
                    invariant
                        p <= names.len(),
                        r@.map(|i: int, s: String| s@) =~= names@.map(|i: int, s: String| s@).take(p as int),
                    decreases names.len() - p,
                {
                    let ghost before = r@;
                    let name = names[p].clone();
                    r.push(name);
                    assert(r@.map(|i: int, s: String| s@) =~= before.map(|i: int, s: String| s@).push(names@[p as int]@));
                    assert(names@.map(|i: int, s: String| s@).take(p + 1) =~= names@.map(|i: int, s: String| s@).take(p as int).push(names@[p as int]@));
                    p = p + 1;
                }
            },
        }
        assert(r@.map(|i: int, s: String| s@) =~= pattern_bindings_of(self.variant.fields, self.identifiers@));
        r
    }
}

} // verus!
