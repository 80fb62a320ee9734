use vstd::prelude::*;

verus! {

/// A type annotation as the parser produces it.
#[derive(Debug)]
pub enum TypeAnnotation {
    TagUnion { tags: Vec<Tag>, ext: Option<Box<TypeAnnotation>> },
    BoundVariable(String),
    /// A type applied to arguments: module qualifier (empty when none),
    /// type name, arguments.
    Apply(String, String, Vec<TypeAnnotation>),
    Record { fields: Vec<AssignedField> },
    SpaceBefore(Box<TypeAnnotation>),
    SpaceAfter(Box<TypeAnnotation>),
    /// A form documentation does not render (functions, wildcards, ...).
    Other,
}

/// A tag of a tag union as the parser produces it.
#[derive(Debug)]
pub enum Tag {
    Global { name: String, args: Vec<TypeAnnotation> },
    Private { name: String, args: Vec<TypeAnnotation> },
    SpaceBefore(Box<Tag>),
    SpaceAfter(Box<Tag>),
    Malformed(String),
}

/// A record field as the parser produces it.
#[derive(Debug)]
pub enum AssignedField {
    RequiredValue(String, TypeAnnotation),
    OptionalValue(String, TypeAnnotation),
    LabelOnly(String),
    SpaceBefore(Box<AssignedField>),
    SpaceAfter(Box<AssignedField>),
    Malformed(String),
}

/// What stands between definitions in the source: a blank line, a line
/// comment or a doc comment (its text after the `##`).
#[derive(Debug)]
pub enum CommentOrNewline {
    Newline,
    LineComment(String),
    DocComment(String),
}

/// A pattern, as far as documentation looks at it.
#[derive(Debug)]
pub enum Pattern {
    Identifier(String),
    Other,
}

/// A top-level definition as the parser produces it.
#[derive(Debug)]
pub enum Def {
    /// A type annotation for a value: `name : Type`.
    Annotation(Pattern, TypeAnnotation),
    /// An annotation together with its body.
    AnnotatedBody { ann_pattern: Pattern, ann_type: TypeAnnotation },
    /// A type alias: `Name vars : Type`.
    Alias { name: String, vars: Vec<Pattern>, ann: TypeAnnotation },
    /// A body without annotation.
    Body(Pattern),
    SpaceBefore(Box<Def>, Vec<CommentOrNewline>),
    SpaceAfter(Box<Def>, Vec<CommentOrNewline>),
}

/// Documentation can render `t`: it holds no private or malformed tag and
/// no malformed field where that matters, and is not of a form it skips.
pub open spec fn documentable(t: TypeAnnotation) -> bool
    decreases t,
{
    match t {
        TypeAnnotation::TagUnion { tags, .. } => tags_public(tags@),
        TypeAnnotation::BoundVariable(_) => true,
        TypeAnnotation::Apply(..) => true,
        TypeAnnotation::Record { fields } => fields_documentable(fields@),
        TypeAnnotation::SpaceBefore(sub) => documentable(*sub),
        TypeAnnotation::SpaceAfter(sub) => documentable(*sub),
        TypeAnnotation::Other => false,
    }
}

/// Every tag is global.
pub open spec fn tags_public(tags: Seq<Tag>) -> bool {
    forall|i: int| 0 <= i < tags.len() ==> tag_public(#[trigger] tags[i])
}

/// The tag is global, spaces ignored.
pub open spec fn tag_public(t: Tag) -> bool
    decreases t,
{
    match t {
        Tag::Global { .. } => true,
        Tag::SpaceBefore(sub) => tag_public(*sub),
        Tag::SpaceAfter(sub) => tag_public(*sub),
        _ => false,
    }
}

/// Every field can be rendered.
pub open spec fn fields_documentable(fields: Seq<AssignedField>) -> bool
    decreases fields,
{
    if fields.len() == 0 {
        true
    } else {
        fields_documentable(fields.drop_last()) && field_documentable(fields.last())
    }
}

/// The field can be rendered, spaces ignored.
pub open spec fn field_documentable(f: AssignedField) -> bool
    decreases f,
{
    match f {
        AssignedField::RequiredValue(_, t) => documentable(t),
        AssignedField::OptionalValue(_, t) => documentable(t),
        AssignedField::LabelOnly(_) => true,
        AssignedField::SpaceBefore(sub) => field_documentable(*sub),
        AssignedField::SpaceAfter(sub) => field_documentable(*sub),
        AssignedField::Malformed(_) => false,
    }
}

} // verus!
