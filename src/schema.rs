//! Schema declarations and the binding-rule resolver.
//!
//! A consumer declares records and tagged unions. The resolver turns each
//! declaration, once and before any input is bound, into a table of binding
//! rules, and reports malformed declarations as [`SchemaError`]s.
use vstd::prelude::*;

verus! {

/// The declared shape of a record field.
pub enum Shape {
    /// The byte range of the record's own node.
    Span,
    /// The source text of the record's own node.
    Text,
    /// An optional child bound as the given type.
    Optional(usize),
    /// A sequence of children, each bound as the given type.
    Repeated(usize),
    /// Whether a child is present.
    Flag,
    /// A required child bound as the given type.
    Nested(usize),
}

/// A record field: its name, its shape and an optional explicit rule name.
pub struct FieldDecl {
    pub name: String,
    pub shape: Shape,
    pub rule: Option<String>,
}

/// A variant of a tagged union: its name, its rule name (the node kind that
/// selects it) and the type its payload is bound as.
pub struct VariantDecl {
    pub name: String,
    pub rule: Option<String>,
    pub ty: usize,
}

/// The declaration of one schema type.
pub enum TypeDecl {
    Record(Vec<FieldDecl>),
    Union(Vec<VariantDecl>),
}

/// A resolved extraction strategy for one record field.
pub enum Rule {
    /// The byte range of the current node.
    Span,
    /// The source text of the current node.
    TextSlice,
    /// The child under the field name, if any, bound as the type.
    OptionalChild(String, usize),
    /// The child under the field name, bound as the type; its absence is a
    /// schema/grammar mismatch. Where the type is a union, the child is
    /// dispatched on its kind.
    RequiredChild(String, usize),
    /// The named children under the field name, each bound as the type.
    RepeatedChildren(String, usize),
    /// Whether a child under the field name exists.
    PresenceFlag(String),
}

/// A resolved union variant: the node kind that selects it and the payload type.
pub struct Alt {
    pub rule: String,
    pub ty: usize,
}

/// The binding rules of one schema type.
pub enum TypeRules {
    Record(Vec<Rule>),
    Union(Vec<Alt>),
}

/// A resolved schema: the binding rules of each type, indexed by type.
pub struct Schema {
    pub types: Vec<TypeRules>,
}

/// A malformed declaration, reported before any input is bound.
#[derive(Debug, Clone, Copy, PartialEq, Eq, Structural)]
pub enum SchemaError {
    /// The repeated field at this index has no rule and its name does not end
    /// in the plural suffix `s`.
    MissingPluralSuffix(usize),
    /// The union variant at this index declares no rule.
    MissingVariantRule(usize),
    /// The field or variant at this index refers to a type that does not exist.
    UnknownType(usize),
    /// The union variant at this index refers to a type declared at or after
    /// the union, so that binding could cycle on one node.
    VariantNotEarlier(usize),
}

/// The type a rule binds children as, if any.
pub open spec fn rule_target(r: Rule) -> Option<usize> {
    match r {
        Rule::OptionalChild(_, u) => Some(u),
        Rule::RequiredChild(_, u) => Some(u),
        Rule::RepeatedChildren(_, u) => Some(u),
        _ => None,
    }
}

impl Schema {
    /// Every referenced type exists, and each union variant's payload type is
    /// declared before the union. The second condition keeps binding from
    /// cycling through unions on one node; a schema whose unions do not nest
    /// cyclically can always be ordered to meet it.
    pub open spec fn wf(&self) -> bool {
        forall|ty: int|
            0 <= ty < self.types@.len() ==> match #[trigger] self.types@[ty] {
                TypeRules::Record(rules) => forall|i: int|
                    0 <= i < rules@.len() ==> match rule_target(#[trigger] rules@[i]) {
                        Some(u) => u < self.types@.len(),
                        None => true,
                    },
                TypeRules::Union(alts) => forall|a: int|
                    0 <= a < alts@.len() ==> #[trigger] alts@[a].ty < ty,
            }
    }
}

/// In a well-formed schema, a record rule's target type exists.
pub proof fn lemma_rule_target_exists(s: &Schema, ty: int, i: int)
    requires
        s.wf(),
        0 <= ty < s.types@.len(),
        s.types@[ty] is Record,
        0 <= i < s.types@[ty]->Record_0@.len(),
    ensures
        rule_target(s.types@[ty]->Record_0@[i]) matches Some(u) ==> u < s.types@.len(),
{
    let rules = s.types@[ty]->Record_0;
    assert(rule_target(rules@[i]) == rule_target(rules@[i]));
}

/// In a well-formed schema, a union variant's payload type comes before the
/// union.
pub proof fn lemma_variant_earlier(s: &Schema, ty: int, a: int)
    requires
        s.wf(),
        0 <= ty < s.types@.len(),
        s.types@[ty] is Union,
        0 <= a < s.types@[ty]->Union_0@.len(),
    ensures
        s.types@[ty]->Union_0@[a].ty < ty,
{
    let alts = s.types@[ty]->Union_0;
    assert(alts@[a].ty == alts@[a].ty);
}

/// A field name with a leading raw-identifier marker `r#` removed.
pub open spec fn base_name(name: Seq<char>) -> Seq<char> {
    if name.len() >= 2 && name[0] == 'r' && name[1] == '#' {
        name.subrange(2, name.len() as int)
    } else {
        name
    }
}

/// The rule name a field binds under, or `None` where a repeated field has
/// no explicit rule and its name lacks the plural suffix.
pub open spec fn field_rule_name(f: FieldDecl) -> Option<Seq<char>> {
    match f.rule {
        Some(r) => Some(r@),
        None => {
            let b = base_name(f.name@);
            match f.shape {
                Shape::Repeated(_) => if b.len() > 0 && b.last() == 's' {
                    Some(b.drop_last())
                } else {
                    None
                },
                _ => Some(b),
            }
        },
    }
}

/// Whether `r` is the rule resolved for field `f`.
pub open spec fn resolves_to(f: FieldDecl, r: Rule) -> bool {
    match (f.shape, r) {
        (Shape::Span, Rule::Span) => true,
        (Shape::Text, Rule::TextSlice) => true,
        (Shape::Optional(u), Rule::OptionalChild(n, v)) => u == v && field_rule_name(f) == Some(n@),
        (Shape::Repeated(u), Rule::RepeatedChildren(n, v)) => u == v && field_rule_name(f) == Some(
            n@,
        ),
        (Shape::Flag, Rule::PresenceFlag(n)) => field_rule_name(f) == Some(n@),
        (Shape::Nested(u), Rule::RequiredChild(n, v)) => u == v && field_rule_name(f) == Some(n@),
        _ => false,
    }
}

/// Whether the field at `i` cannot be resolved.
pub open spec fn field_fails(fields: Seq<FieldDecl>, i: int) -> bool {
    field_rule_name(fields[i]) is None
}

/// Whether the variant at `i` cannot be resolved.
pub open spec fn variant_fails(vs: Seq<VariantDecl>, i: int) -> bool {
    vs[i].rule is None
}

/// Whether every field or variant of `d` can be resolved.
pub open spec fn decl_ok(d: TypeDecl) -> bool {
    match d {
        TypeDecl::Record(fields) => fields_ok(fields@),
        TypeDecl::Union(vs) => variants_ok(vs@),
    }
}

pub open spec fn fields_ok(fields: Seq<FieldDecl>) -> bool {
    forall|i: int| 0 <= i < fields.len() ==> !field_fails(fields, i)
}

pub open spec fn variants_ok(vs: Seq<VariantDecl>) -> bool {
    forall|i: int| 0 <= i < vs.len() ==> !variant_fails(vs, i)
}

/// Whether `e` is the error that resolving `d` reports: the one for the first
/// field or variant that cannot be resolved.
pub open spec fn decl_error(d: TypeDecl, e: SchemaError) -> bool {
    match (d, e) {
        (TypeDecl::Record(fields), SchemaError::MissingPluralSuffix(i)) => {
            &&& i < fields@.len()
            &&& field_fails(fields@, i as int)
            &&& forall|j: int| 0 <= j < i ==> !field_fails(fields@, j)
        },
        (TypeDecl::Union(vs), SchemaError::MissingVariantRule(i)) => {
            &&& i < vs@.len()
            &&& variant_fails(vs@, i as int)
            &&& forall|j: int| 0 <= j < i ==> !variant_fails(vs@, j)
        },
        _ => false,
    }
}

/// Whether `rules` is the resolution of declaration `d`.
pub open spec fn resolved(d: TypeDecl, rules: TypeRules) -> bool {
    match (d, rules) {
        (TypeDecl::Record(fields), TypeRules::Record(rs)) => {
            &&& rs@.len() == fields@.len()
            &&& forall|i: int| 0 <= i < fields@.len() ==> resolves_to(fields@[i], #[trigger] rs@[i])
        },
        (TypeDecl::Union(vs), TypeRules::Union(alts)) => {
            &&& alts@.len() == vs@.len()
            &&& forall|i: int|
                0 <= i < vs@.len() ==> (#[trigger] alts@[i]).ty == vs@[i].ty && vs@[i].rule
                    == Some(alts@[i].rule)
        },
        _ => false,
    }
}

fn strip_raw_marker(name: &String) -> (r: String)
    ensures
        r@ == base_name(name@),
{
    let s = name.as_str();
    let n = s.unicode_len();
    if n >= 2 && s.get_char(0) == 'r' && s.get_char(1) == '#' {
        s.substring_char(2, n).to_owned()
    } else {
        s.to_owned()
    }
}

/// The rule name of field `f`, as `field_rule_name` describes it.
pub fn rule_name(f: &FieldDecl) -> (r: Option<String>)
    ensures
        match r {
            Some(s) => field_rule_name(*f) == Some(s@),
            None => field_rule_name(*f) is None,
        },
{
    match &f.rule {
        Some(r) => Some(r.clone()),
        None => {
            let b = strip_raw_marker(&f.name);
            match f.shape {
                Shape::Repeated(_) => {
                    let s = b.as_str();
                    let n = s.unicode_len();
                    if n > 0 && s.get_char(n - 1) == 's' {
                        let stripped = s.substring_char(0, n - 1).to_owned();
                        assert(stripped@ =~= b@.drop_last());
                        Some(stripped)
                    } else {
                        None
                    }
                },
                _ => Some(b),
            }
        },
    }
}

fn resolve_field(f: &FieldDecl) -> (r: Option<Rule>)
    ensures
        match r {
            Some(rule) => resolves_to(*f, rule),
            None => field_rule_name(*f) is None,
        },
{
    match f.shape {
        Shape::Span => Some(Rule::Span),
        Shape::Text => Some(Rule::TextSlice),
        Shape::Optional(u) => match rule_name(f) {
            Some(n) => Some(Rule::OptionalChild(n, u)),
            None => None,
        },
        Shape::Repeated(u) => match rule_name(f) {
            Some(n) => Some(Rule::RepeatedChildren(n, u)),
            None => None,
        },
        Shape::Flag => match rule_name(f) {
            Some(n) => Some(Rule::PresenceFlag(n)),
            None => None,
        },
        Shape::Nested(u) => match rule_name(f) {
            Some(n) => Some(Rule::RequiredChild(n, u)),
            None => None,
        },
    }
}

/// Resolves one type declaration into its binding rules.
///
/// Each record field gets the rule its shape selects: `Span`, `TextSlice`,
/// `OptionalChild`, `RepeatedChildren`, `PresenceFlag` or `RequiredChild`,
/// named by the explicit rule or else by the field name (for a repeated
/// field, the field name without its plural suffix `s`). Each union variant
/// must declare its rule. The first field or variant that cannot be resolved
/// is reported.
pub fn derive_from_tree_sitter(decl: &TypeDecl) -> (r: Result<TypeRules, SchemaError>)
    ensures
        match r {
            Ok(rules) => decl_ok(*decl) && resolved(*decl, rules),
            Err(e) => !decl_ok(*decl) && decl_error(*decl, e),
        },
{
    match decl {
        TypeDecl::Record(fields) => {
            let mut rules: Vec<Rule> = Vec::new();
            let mut i: usize = 0;
            while i < fields.len()
                invariant
                    i <= fields@.len(),
                    *decl == TypeDecl::Record(*fields),
                    rules@.len() == i,
                    forall|j: int| 0 <= j < i ==> resolves_to(fields@[j], #[trigger] rules@[j]),
                    forall|j: int| 0 <= j < i ==> !field_fails(fields@, j),
                decreases fields@.len() - i,
            {
                match resolve_field(&fields[i]) {
                    Some(rule) => {
                        rules.push(rule);
                    },
                    None => {
                        assert(field_fails(fields@, i as int));
                        assert(!fields_ok(fields@));
                        return Err(SchemaError::MissingPluralSuffix(i));
                    },
                }
                i = i + 1;
            }
            Ok(TypeRules::Record(rules))
        },
        TypeDecl::Union(vs) => {
            let mut alts: Vec<Alt> = Vec::new();
            let mut i: usize = 0;
            while i < vs.len()
                invariant
                    i <= vs@.len(),
                    *decl == TypeDecl::Union(*vs),
                    alts@.len() == i,
                    forall|j: int|
                        0 <= j < i ==> (#[trigger] alts@[j]).ty == vs@[j].ty && vs@[j].rule == Some(
                            alts@[j].rule,
                        ),
                    forall|j: int| 0 <= j < i ==> !variant_fails(vs@, j),
                decreases vs@.len() - i,
            {
                match &vs[i].rule {
                    Some(rule) => {
                        alts.push(Alt { rule: rule.clone(), ty: vs[i].ty });
                    },
                    None => {
                        assert(variant_fails(vs@, i as int));
                        return Err(SchemaError::MissingVariantRule(i));
                    },
                }
                i = i + 1;
            }
            Ok(TypeRules::Union(alts))
        },
    }
}

/// The type a field shape binds children as, if any.
pub open spec fn shape_target(sh: Shape) -> Option<usize> {
    match sh {
        Shape::Optional(u) => Some(u),
        Shape::Repeated(u) => Some(u),
        Shape::Nested(u) => Some(u),
        _ => None,
    }
}

/// Whether the field at `i` refers to a type that does not exist among `n`.
pub open spec fn field_ref_bad(fields: Seq<FieldDecl>, i: int, n: int) -> bool {
    shape_target(fields[i].shape) matches Some(u) && u >= n
}

/// Whether the variant at `i` of the union declared at `ty` refers to a type
/// declared at or after the union.
pub open spec fn variant_ref_bad(vs: Seq<VariantDecl>, i: int, ty: int) -> bool {
    vs[i].ty >= ty
}

pub open spec fn fields_refs_ok(fields: Seq<FieldDecl>, n: int) -> bool {
    forall|i: int| 0 <= i < fields.len() ==> !field_ref_bad(fields, i, n)
}

pub open spec fn variants_refs_ok(vs: Seq<VariantDecl>, ty: int) -> bool {
    forall|i: int| 0 <= i < vs.len() ==> !variant_ref_bad(vs, i, ty)
}

/// Whether the references of declaration `d`, declared at `ty` among `n`
/// types, are valid.
pub open spec fn refs_ok(d: TypeDecl, ty: int, n: int) -> bool {
    match d {
        TypeDecl::Record(fields) => fields_refs_ok(fields@, n),
        TypeDecl::Union(vs) => variants_refs_ok(vs@, ty),
    }
}

/// Whether `e` is the first invalid reference of declaration `d`.
pub open spec fn ref_error(d: TypeDecl, ty: int, n: int, e: SchemaError) -> bool {
    match (d, e) {
        (TypeDecl::Record(fields), SchemaError::UnknownType(i)) => {
            &&& i < fields@.len()
            &&& field_ref_bad(fields@, i as int, n)
            &&& forall|j: int| 0 <= j < i ==> !field_ref_bad(fields@, j, n)
        },
        (TypeDecl::Union(vs), SchemaError::VariantNotEarlier(i)) => {
            &&& i < vs@.len()
            &&& variant_ref_bad(vs@, i as int, ty)
            &&& forall|j: int| 0 <= j < i ==> !variant_ref_bad(vs@, j, ty)
        },
        _ => false,
    }
}

/// Whether every declaration of `ds` resolves and refers validly.
pub open spec fn decls_ok(ds: Seq<TypeDecl>) -> bool {
    forall|ty: int|
        0 <= ty < ds.len() ==> decl_ok(#[trigger] ds[ty]) && refs_ok(ds[ty], ty, ds.len() as int)
}

fn check_refs(decl: &TypeDecl, ty: usize, n: usize) -> (r: Result<(), SchemaError>)
    ensures
        r is Ok == refs_ok(*decl, ty as int, n as int),
        r matches Err(e) ==> ref_error(*decl, ty as int, n as int, e),
{
    match decl {
        TypeDecl::Record(fields) => {
            let mut i: usize = 0;
            while i < fields.len()
                invariant
                    i <= fields@.len(),
                    *decl == TypeDecl::Record(*fields),
                    forall|j: int| 0 <= j < i ==> !field_ref_bad(fields@, j, n as int),
                decreases fields@.len() - i,
            {
                let bad = match fields[i].shape {
                    Shape::Optional(u) => u >= n,
                    Shape::Repeated(u) => u >= n,
                    Shape::Nested(u) => u >= n,
                    _ => false,
                };
                if bad {
                    assert(field_ref_bad(fields@, i as int, n as int));
                    assert(!fields_refs_ok(fields@, n as int));
                    return Err(SchemaError::UnknownType(i));
                }
                i = i + 1;
            }
            Ok(())
        },
        TypeDecl::Union(vs) => {
            let mut i: usize = 0;
            while i < vs.len()
                invariant
                    i <= vs@.len(),
                    *decl == TypeDecl::Union(*vs),
                    forall|j: int| 0 <= j < i ==> !variant_ref_bad(vs@, j, ty as int),
                decreases vs@.len() - i,
            {
                if vs[i].ty >= ty {
                    assert(variant_ref_bad(vs@, i as int, ty as int));
                    assert(!variants_refs_ok(vs@, ty as int));
                    return Err(SchemaError::VariantNotEarlier(i));
                }
                i = i + 1;
            }
            Ok(())
        },
    }
}

/// Resolves every declaration of a schema, where each type is named by its
/// index in `decls`. The first declaration that fails is reported with its
/// index: a field or variant that cannot be resolved, a reference to a type
/// that does not exist, or a union variant whose payload type is not declared
/// before the union.
pub fn build_schema(decls: &Vec<TypeDecl>) -> (r: Result<Schema, (usize, SchemaError)>)
    ensures
        r is Ok == decls_ok(decls@),
        r matches Ok(s) ==> {
            &&& s.wf()
            &&& s.types@.len() == decls@.len()
            &&& forall|ty: int| 0 <= ty < decls@.len() ==> resolved(decls@[ty], #[trigger] s.types@[ty])
        },
        r matches Err(p) ==> {
            &&& p.0 < decls@.len()
            &&& forall|j: int|
                0 <= j < p.0 ==> decl_ok(#[trigger] decls@[j]) && refs_ok(decls@[j], j, decls@.len() as int)
            &&& if decl_ok(decls@[p.0 as int]) {
                ref_error(decls@[p.0 as int], p.0 as int, decls@.len() as int, p.1)
            } else {
                decl_error(decls@[p.0 as int], p.1)
            }
        },
{
    let n = decls.len();
    let mut types: Vec<TypeRules> = Vec::new();
    let mut k: usize = 0;
    while k < n
        invariant
            n == decls@.len(),
            k <= n,
            types@.len() == k,
            forall|j: int| 0 <= j < k ==> decl_ok(#[trigger] decls@[j]) && refs_ok(decls@[j], j, n as int),
            forall|j: int| 0 <= j < k ==> resolved(decls@[j], #[trigger] types@[j]),
        decreases n - k,
    {
        let rules = match derive_from_tree_sitter(&decls[k]) {
            Ok(rules) => rules,
            Err(e) => {
                return Err((k, e));
            },
        };
        match check_refs(&decls[k], k, n) {
            Ok(()) => {},
            Err(e) => {
                return Err((k, e));
            },
        }
        types.push(rules);
        k = k + 1;
    }
    let s = Schema { types };
    proof {
        lemma_resolved_wf(decls@, s);
    }
    Ok(s)
}

proof fn lemma_resolved_wf(ds: Seq<TypeDecl>, s: Schema)
    requires
        s.types@.len() == ds.len(),
        forall|j: int| 0 <= j < ds.len() ==> decl_ok(#[trigger] ds[j]) && refs_ok(ds[j], j, ds.len() as int),
        forall|j: int| 0 <= j < ds.len() ==> resolved(ds[j], #[trigger] s.types@[j]),
    ensures
        s.wf(),
{
    assert forall|ty: int| 0 <= ty < s.types@.len() implies match #[trigger] s.types@[ty] {
        TypeRules::Record(rules) => forall|i: int|
            0 <= i < rules@.len() ==> match rule_target(#[trigger] rules@[i]) {
                Some(u) => u < s.types@.len(),
                None => true,
            },
        TypeRules::Union(alts) => forall|a: int| 0 <= a < alts@.len() ==> #[trigger] alts@[a].ty < ty,
    } by {
        assert(resolved(ds[ty], s.types@[ty]));
        assert(refs_ok(ds[ty], ty, ds.len() as int));
        match s.types@[ty] {
            TypeRules::Record(rules) => {
                let fields = ds[ty]->Record_0;
                assert forall|i: int| 0 <= i < rules@.len() implies match rule_target(#[trigger] rules@[i]) {
                    Some(u) => u < s.types@.len(),
                    None => true,
                } by {
                    assert(resolves_to(fields@[i], rules@[i]));
                    assert(!field_ref_bad(fields@, i, ds.len() as int));
                }
            },
            TypeRules::Union(alts) => {
                let vs = ds[ty]->Union_0;
                assert forall|a: int| 0 <= a < alts@.len() implies #[trigger] alts@[a].ty < ty by {
                    assert(!variant_ref_bad(vs@, a, ty));
                }
            },
        }
    }
}

} // verus!
