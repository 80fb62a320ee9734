use vstd::prelude::*;

use crate::ast;
use crate::imports::{Located, Region, Symbol};
use crate::ast::{CommentOrNewline, Def, Pattern, documentable, field_documentable, fields_documentable, tag_public, tags_public};

verus! {

/// A documentation entry of a module.
#[derive(Debug, PartialEq)]
pub enum DocEntry {
    DocDef(DocDef),
    DetatchedDoc(String),
}

/// The documentation of one definition.
#[derive(Debug, PartialEq)]
pub struct DocDef {
    pub name: String,
    pub type_vars: Vec<String>,
    pub type_annotation: Option<TypeAnnotation>,
    pub docs: Option<String>,
}

/// A type annotation as shown in documentation.
#[derive(Debug, PartialEq)]
pub enum TypeAnnotation {
    TagUnion { tags: Vec<Tag>, extension: Option<Box<TypeAnnotation>> },
    BoundVariable(String),
    Apply { name: String, parts: Vec<TypeAnnotation> },
    Record { fields: Vec<RecordField> },
}

/// A record field as shown in documentation.
#[derive(Debug, PartialEq)]
pub enum RecordField {
    RecordField { name: String, type_annotation: TypeAnnotation },
    OptionalField { name: String, type_annotation: TypeAnnotation },
    LabelOnly { name: String },
}

/// A tag of a tag union as shown in documentation.
#[derive(Debug, PartialEq)]
pub struct Tag {
    pub name: String,
    pub values: Vec<TypeAnnotation>,
}

/// Reads `items` in order, gathering doc comment lines (each ended by a
/// newline) into a current block; a blank line or a line comment closes the
/// current block into the list and starts an empty one. The result is the
/// closed blocks and the block still open.
pub open spec fn doc_blocks(items: Seq<CommentOrNewline>) -> (Seq<Seq<char>>, Seq<char>)
    decreases items.len(),
{
    if items.len() == 0 {
        (Seq::empty(), Seq::empty())
    } else {
        let (closed, open) = doc_blocks(items.drop_last());
        match items.last() {
            CommentOrNewline::DocComment(d) => (closed, open + d@ + seq!['\n']),
            _ => (closed.push(open), Seq::empty()),
        }
    }
}

/// The doc comment block that directly precedes a definition: `None` when
/// the last block in `comments_or_new_lines` is empty.
pub fn comments_or_new_lines_to_docs(comments_or_new_lines: &[CommentOrNewline]) -> (r: Option<
    String,
>)
    ensures
        r is None <==> doc_blocks(comments_or_new_lines@).1.len() == 0,
        r is Some ==> r->Some_0@ == doc_blocks(comments_or_new_lines@).1,
{
    let mut docs = String::new();
    let mut i: usize = 0;
    while i < comments_or_new_lines.len()
        invariant
            i <= comments_or_new_lines@.len(),
            docs@ == doc_blocks(comments_or_new_lines@.subrange(0, i as int)).1,
        decreases comments_or_new_lines@.len() - i,
    {
        proof {
            assert(comments_or_new_lines@.subrange(0, i + 1).drop_last()
                =~= comments_or_new_lines@.subrange(0, i as int));
        }
        match &comments_or_new_lines[i] {
            CommentOrNewline::DocComment(doc_str) => {
                docs.append(doc_str.as_str());
                proof {
                    reveal_strlit("\n");
                }
                docs.append("\n");
            },
            CommentOrNewline::Newline | CommentOrNewline::LineComment(_) => {
                docs = String::new();
            },
        }
        i += 1;
    }
    proof {
        assert(comments_or_new_lines@.subrange(0, i as int) =~= comments_or_new_lines@);
    }
    if docs.as_str().is_empty() {
        None
    } else {
        Some(docs)
    }
}

/// The doc comment blocks in `comments_or_new_lines` that a blank line or a
/// line comment closes, in order; the block still open at the end is not
/// among them.
pub fn detatched_docs_from_comments_and_new_lines(comments_or_new_lines: &[CommentOrNewline]) -> (r:
    Vec<String>)
    ensures
        r@.map_values(|s: String| s@) == doc_blocks(comments_or_new_lines@).0,
{
    let mut detatched_docs: Vec<String> = Vec::new();
    let mut docs = String::new();
    let mut i: usize = 0;
    while i < comments_or_new_lines.len()
        invariant
            i <= comments_or_new_lines@.len(),
            docs@ == doc_blocks(comments_or_new_lines@.subrange(0, i as int)).1,
            detatched_docs@.map_values(|s: String| s@) == doc_blocks(
                comments_or_new_lines@.subrange(0, i as int),
            ).0,
        decreases comments_or_new_lines@.len() - i,
    {
        proof {
            assert(comments_or_new_lines@.subrange(0, i + 1).drop_last()
                =~= comments_or_new_lines@.subrange(0, i as int));
        }
        let ghost before = detatched_docs@;
        match &comments_or_new_lines[i] {
            CommentOrNewline::DocComment(doc_str) => {
                docs.append(doc_str.as_str());
                proof {
                    reveal_strlit("\n");
                }
                docs.append("\n");
            },
            CommentOrNewline::Newline | CommentOrNewline::LineComment(_) => {
                detatched_docs.push(docs.clone());
                assert(detatched_docs@.map_values(|s: String| s@) =~= before.map_values(
                    |s: String| s@,
                ).push(docs@));
                docs = String::new();
            },
        }
        i += 1;
    }
    proof {
        assert(comments_or_new_lines@.subrange(0, i as int) =~= comments_or_new_lines@);
    }
    detatched_docs
}

/// The name a documented type application shows: the type name, qualified
/// by its module when it has one.
pub open spec fn qualified(module_name: Seq<char>, tname: Seq<char>) -> Seq<char> {
    if module_name.len() == 0 {
        tname
    } else {
        module_name + seq!['.'] + tname
    }
}

/// `d` is how documentation shows the documentable annotation `t`.
pub open spec fn renders(t: ast::TypeAnnotation, d: TypeAnnotation) -> bool
    decreases t,
{
    match t {
        ast::TypeAnnotation::TagUnion { tags, ext } => match d {
            TypeAnnotation::TagUnion { tags: shown, extension } => {
                &&& tags_render(tags@, shown@)
                &&& match ext {
                    None => extension is None,
                    Some(e) => {
                        &&& (extension is Some <==> documentable(*e))
                        &&& extension is Some ==> renders(*e, *extension->Some_0)
                    },
                }
            },
            _ => false,
        },
        ast::TypeAnnotation::BoundVariable(v) => match d {
            TypeAnnotation::BoundVariable(s) => s@ == v@,
            _ => false,
        },
        ast::TypeAnnotation::Apply(module_name, tname, parts) => match d {
            TypeAnnotation::Apply { name, parts: shown } => name@ == qualified(
                module_name@,
                tname@,
            ) && parts_render(parts@, shown@),
            _ => false,
        },
        ast::TypeAnnotation::Record { fields } => match d {
            TypeAnnotation::Record { fields: shown } => fields_render(fields@, shown@),
            _ => false,
        },
        ast::TypeAnnotation::SpaceBefore(sub) => renders(*sub, d),
        ast::TypeAnnotation::SpaceAfter(sub) => renders(*sub, d),
        ast::TypeAnnotation::Other => false,
    }
}

/// `shown` holds the renderings of the documentable annotations among
/// `parts`, in order; the others are left out.
pub open spec fn parts_render(parts: Seq<ast::TypeAnnotation>, shown: Seq<TypeAnnotation>) -> bool
    decreases parts,
{
    if parts.len() == 0 {
        shown.len() == 0
    } else if documentable(parts.last()) {
        &&& shown.len() > 0
        &&& renders(parts.last(), shown.last())
        &&& parts_render(parts.drop_last(), shown.drop_last())
    } else {
        parts_render(parts.drop_last(), shown)
    }
}

/// `shown` holds the rendering of each of `tags`, in order.
pub open spec fn tags_render(tags: Seq<ast::Tag>, shown: Seq<Tag>) -> bool
    decreases tags,
{
    if tags.len() == 0 {
        shown.len() == 0
    } else {
        &&& shown.len() > 0
        &&& tag_renders(tags.last(), shown.last())
        &&& tags_render(tags.drop_last(), shown.drop_last())
    }
}

/// `d` is how documentation shows the global tag `t`: its name and its
/// documentable arguments.
pub open spec fn tag_renders(t: ast::Tag, d: Tag) -> bool
    decreases t,
{
    match t {
        ast::Tag::Global { name, args } => d.name@ == name@ && parts_render(args@, d.values@),
        ast::Tag::SpaceBefore(sub) => tag_renders(*sub, d),
        ast::Tag::SpaceAfter(sub) => tag_renders(*sub, d),
        _ => false,
    }
}

/// `shown` holds the rendering of each of `fields`, in order.
pub open spec fn fields_render(fields: Seq<ast::AssignedField>, shown: Seq<RecordField>) -> bool
    decreases fields,
{
    if fields.len() == 0 {
        shown.len() == 0
    } else {
        &&& shown.len() > 0
        &&& field_renders(fields.last(), shown.last())
        &&& fields_render(fields.drop_last(), shown.drop_last())
    }
}

/// `d` is how documentation shows the field `f`.
pub open spec fn field_renders(f: ast::AssignedField, d: RecordField) -> bool
    decreases f,
{
    match f {
        ast::AssignedField::RequiredValue(n, t) => match d {
            RecordField::RecordField { name, type_annotation } => name@ == n@ && renders(
                t,
                type_annotation,
            ),
            _ => false,
        },
        ast::AssignedField::OptionalValue(n, t) => match d {
            RecordField::OptionalField { name, type_annotation } => name@ == n@ && renders(
                t,
                type_annotation,
            ),
            _ => false,
        },
        ast::AssignedField::LabelOnly(n) => match d {
            RecordField::LabelOnly { name } => name@ == n@,
            _ => false,
        },
        ast::AssignedField::SpaceBefore(sub) => field_renders(*sub, d),
        ast::AssignedField::SpaceAfter(sub) => field_renders(*sub, d),
        ast::AssignedField::Malformed(_) => false,
    }
}

proof fn lemma_fields_documentable_each(fields: Seq<ast::AssignedField>, i: int)
    requires
        fields_documentable(fields),
        0 <= i < fields.len(),
    ensures
        field_documentable(fields[i]),
    decreases fields.len(),
{
    if i < fields.len() - 1 {
        assert(fields.drop_last()[i] == fields[i]);
        lemma_fields_documentable_each(fields.drop_last(), i);
    }
}

/// How documentation shows `type_annotation`: `None` when it cannot be
/// rendered (a private or malformed tag, a malformed field, or a form that
/// documentation skips).
pub fn type_to_docs(type_annotation: &ast::TypeAnnotation) -> (r: Option<TypeAnnotation>)
    ensures
        r is Some <==> documentable(*type_annotation),
        r is Some ==> renders(*type_annotation, r->Some_0),
    decreases type_annotation,
{
    match type_annotation {
        ast::TypeAnnotation::TagUnion { tags, ext } => {
            let mut tags_to_render: Vec<Tag> = Vec::new();
            proof {
                assert(decreases_to!(*type_annotation => type_annotation->TagUnion_tags));
                assert(decreases_to!(*tags => tags@));
            }
            let mut i: usize = 0;
            while i < tags.len()
                invariant
                    decreases_to!(*type_annotation => tags@),
                    *type_annotation == (ast::TypeAnnotation::TagUnion { tags: *tags, ext: *ext }),
                    documentable(*type_annotation) == tags_public(tags@),
                    i <= tags@.len(),
                    forall|k: int| 0 <= k < i ==> tag_public(#[trigger] tags@[k]),
                    tags_render(tags@.subrange(0, i as int), tags_to_render@),
                decreases tags@.len() - i,
            {
                proof {
                    assert(decreases_to!(tags@ => tags@[i as int]));
                }
                match tag_to_doc(&tags[i]) {
                    None => {
                        assert(!tag_public(tags@[i as int]));
                        assert(!tags_public(tags@));
                        return None;
                    },
                    Some(tag_ann) => {
                        let ghost before = tags_to_render@;
                        tags_to_render.push(tag_ann);
                        proof {
                            let sub = tags@.subrange(0, i + 1);
                            assert(sub.drop_last() =~= tags@.subrange(0, i as int));
                            assert(tags_to_render@.drop_last() =~= before);
                        }
                    },
                }
                i += 1;
            }
            assert(tags@.subrange(0, tags@.len() as int) =~= tags@);
            let extension = match ext {
                None => None,
                Some(ext_type_ann) => match type_to_docs(ext_type_ann) {
                    Some(e) => Some(Box::new(e)),
                    None => None,
                },
            };
            Some(TypeAnnotation::TagUnion { tags: tags_to_render, extension })
        },
        ast::TypeAnnotation::BoundVariable(var_name) => Some(
            TypeAnnotation::BoundVariable(var_name.clone()),
        ),
        ast::TypeAnnotation::Apply(module_name, tname, type_ann_parts) => {
            let mut name = String::new();
            if !module_name.as_str().is_empty() {
                name.append(module_name.as_str());
                proof {
                    reveal_strlit(".");
                }
                name.append(".");
            }
            name.append(tname.as_str());
            let mut parts: Vec<TypeAnnotation> = Vec::new();
            proof {
                assert(decreases_to!(*type_annotation => type_annotation->Apply_2));
                assert(decreases_to!(*type_ann_parts => type_ann_parts@));
            }
            let mut i: usize = 0;
            while i < type_ann_parts.len()
                invariant
                    decreases_to!(*type_annotation => type_ann_parts@),
                    *type_annotation == ast::TypeAnnotation::Apply(*module_name, *tname, *type_ann_parts),
                    name@ == qualified(module_name@, tname@),
                    i <= type_ann_parts@.len(),
                    parts_render(type_ann_parts@.subrange(0, i as int), parts@),
                decreases type_ann_parts@.len() - i,
            {
                let ghost before = parts@;
                proof {
                    let sub = type_ann_parts@.subrange(0, i + 1);
                    assert(sub.drop_last() =~= type_ann_parts@.subrange(0, i as int));
                }
                proof {
                    assert(decreases_to!(type_ann_parts@ => type_ann_parts@[i as int]));
                }
                match type_to_docs(&type_ann_parts[i]) {
                    Some(part) => {
                        parts.push(part);
                        assert(parts@.drop_last() =~= before);
                    },
                    None => {},
                }
                i += 1;
            }
            assert(type_ann_parts@.subrange(0, type_ann_parts@.len() as int) =~= type_ann_parts@);
            Some(TypeAnnotation::Apply { name, parts })
        },
        ast::TypeAnnotation::Record { fields } => {
            let mut doc_fields: Vec<RecordField> = Vec::new();
            proof {
                assert(decreases_to!(*type_annotation => type_annotation->Record_fields));
                assert(decreases_to!(*fields => fields@));
            }
            let mut i: usize = 0;
            while i < fields.len()
                invariant
                    decreases_to!(*type_annotation => fields@),
                    *type_annotation == (ast::TypeAnnotation::Record { fields: *fields }),
                    documentable(*type_annotation) == fields_documentable(fields@),
                    i <= fields@.len(),
                    fields_documentable(fields@.subrange(0, i as int)),
                    fields_render(fields@.subrange(0, i as int), doc_fields@),
                decreases fields@.len() - i,
            {
                let ghost before = doc_fields@;
                proof {
                    let sub = fields@.subrange(0, i + 1);
                    assert(sub.drop_last() =~= fields@.subrange(0, i as int));
                }
                proof {
                    assert(decreases_to!(fields@ => fields@[i as int]));
                }
                match record_field_to_doc(&fields[i]) {
                    None => {
                        proof {
                            if fields_documentable(fields@) {
                                lemma_fields_documentable_each(fields@, i as int);
                            }
                        }
                        return None;
                    },
                    Some(doc_field) => {
                        doc_fields.push(doc_field);
                        assert(doc_fields@.drop_last() =~= before);
                    },
                }
                i += 1;
            }
            assert(fields@.subrange(0, fields@.len() as int) =~= fields@);
            Some(TypeAnnotation::Record { fields: doc_fields })
        },
        ast::TypeAnnotation::SpaceBefore(sub_type_ann) => type_to_docs(sub_type_ann),
        ast::TypeAnnotation::SpaceAfter(sub_type_ann) => type_to_docs(sub_type_ann),
        ast::TypeAnnotation::Other => None,
    }
}

/// How documentation shows a record field: `None` for a malformed field or
/// one whose type cannot be rendered.
pub fn record_field_to_doc(field: &ast::AssignedField) -> (r: Option<RecordField>)
    ensures
        r is Some <==> field_documentable(*field),
        r is Some ==> field_renders(*field, r->Some_0),
    decreases field,
{
    match field {
        ast::AssignedField::RequiredValue(name, type_ann) => match type_to_docs(type_ann) {
            Some(type_ann_docs) => Some(
                RecordField::RecordField { name: name.clone(), type_annotation: type_ann_docs },
            ),
            None => None,
        },
        ast::AssignedField::SpaceBefore(sub_field) => record_field_to_doc(sub_field),
        ast::AssignedField::SpaceAfter(sub_field) => record_field_to_doc(sub_field),
        ast::AssignedField::OptionalValue(name, type_ann) => match type_to_docs(type_ann) {
            Some(type_ann_docs) => Some(
                RecordField::OptionalField { name: name.clone(), type_annotation: type_ann_docs },
            ),
            None => None,
        },
        ast::AssignedField::LabelOnly(label) => Some(RecordField::LabelOnly { name: label.clone() }),
        ast::AssignedField::Malformed(_) => None,
    }
}

/// How documentation shows a tag: `None` for a private or malformed tag.
pub fn tag_to_doc(tag: &ast::Tag) -> (r: Option<Tag>)
    ensures
        r is Some <==> tag_public(*tag),
        r is Some ==> tag_renders(*tag, r->Some_0),
    decreases tag,
{
    match tag {
        ast::Tag::Global { name, args } => {
            let mut type_vars: Vec<TypeAnnotation> = Vec::new();
            proof {
                assert(decreases_to!(*tag => tag->Global_args));
                assert(decreases_to!(*args => args@));
            }
            let mut i: usize = 0;
            while i < args.len()
                invariant
                    decreases_to!(*tag => args@),
                    *tag == (ast::Tag::Global { name: *name, args: *args }),
                    i <= args@.len(),
                    parts_render(args@.subrange(0, i as int), type_vars@),
                decreases args@.len() - i,
            {
                let ghost before = type_vars@;
                proof {
                    let sub = args@.subrange(0, i + 1);
                    assert(sub.drop_last() =~= args@.subrange(0, i as int));
                }
                proof {
                    assert(decreases_to!(args@ => args@[i as int]));
                }
                match type_to_docs(&args[i]) {
                    Some(type_var) => {
                        type_vars.push(type_var);
                        assert(type_vars@.drop_last() =~= before);
                    },
                    None => {},
                }
                i += 1;
            }
            assert(args@.subrange(0, args@.len() as int) =~= args@);
            Some(Tag { name: name.clone(), values: type_vars })
        },
        ast::Tag::Private { .. } => None,
        ast::Tag::SpaceBefore(sub_tag) => tag_to_doc(sub_tag),
        ast::Tag::SpaceAfter(sub_tag) => tag_to_doc(sub_tag),
        ast::Tag::Malformed(_) => None,
    }
}

/// The documentation of a package.
pub struct Documentation {
    pub name: String,
    pub version: String,
    pub docs: String,
    pub modules: Vec<ModuleDocumentation>,
}

/// The documentation of a module.
pub struct ModuleDocumentation {
    pub name: String,
    pub entries: Vec<DocEntry>,
    pub scope: im::HashMap<String, (Symbol, Region)>,
}

/// What a documentation entry should hold, over plain values: for a
/// definition, its name, type variables, the annotation to render (if any)
/// and its doc comment; or a detached doc comment block.
pub enum EntryShape {
    Def {
        name: Seq<char>,
        type_vars: Seq<Seq<char>>,
        annotation: Option<ast::TypeAnnotation>,
        docs: Option<Seq<char>>,
    },
    Detached(Seq<char>),
}

/// The doc comment attached to a definition preceded by `before`: the last
/// open block, if it is not empty.
pub open spec fn attached_docs(before: Option<Seq<CommentOrNewline>>) -> Option<Seq<char>> {
    match before {
        None => None,
        Some(c) => if doc_blocks(c).1.len() == 0 {
            None
        } else {
            Some(doc_blocks(c).1)
        },
    }
}

/// The identifiers among the patterns, in order.
pub open spec fn identifiers(vars: Seq<Pattern>) -> Seq<Seq<char>>
    decreases vars.len(),
{
    if vars.len() == 0 {
        Seq::empty()
    } else {
        match vars.last() {
            Pattern::Identifier(s) => identifiers(vars.drop_last()).push(s@),
            Pattern::Other => identifiers(vars.drop_last()),
        }
    }
}

/// The entry for a value named by `pattern`, if it is an exposed identifier.
pub open spec fn value_shapes(
    exposed: Seq<Seq<char>>,
    before: Option<Seq<CommentOrNewline>>,
    pattern: Pattern,
) -> Seq<EntryShape> {
    match pattern {
        Pattern::Identifier(id) => if exposed.contains(id@) {
            seq![
                EntryShape::Def {
                    name: id@,
                    type_vars: Seq::empty(),
                    annotation: None,
                    docs: attached_docs(before),
                },
            ]
        } else {
            Seq::empty()
        },
        Pattern::Other => Seq::empty(),
    }
}

/// The entries that `def` adds after comments `before`, and the comments
/// that carry over to the next definition. Comments before a definition
/// close into detached blocks except the last open one, which documents it;
/// comments after a definition carry over.
pub open spec fn entry_shapes(
    exposed: Seq<Seq<char>>,
    before: Option<Seq<CommentOrNewline>>,
    def: Def,
) -> (Seq<EntryShape>, Option<Seq<CommentOrNewline>>)
    decreases def,
{
    match def {
        Def::SpaceBefore(sub, comments) => {
            let detached = doc_blocks(comments@).0.map_values(|d: Seq<char>| EntryShape::Detached(d));
            let inner = entry_shapes(exposed, Some(comments@), *sub);
            (detached + inner.0, inner.1)
        },
        Def::SpaceAfter(sub, comments) => (entry_shapes(exposed, before, *sub).0, Some(comments@)),
        Def::Annotation(pattern, _) => (value_shapes(exposed, before, pattern), None),
        Def::AnnotatedBody { ann_pattern, .. } => (value_shapes(exposed, before, ann_pattern), None),
        Def::Alias { name, vars, ann } => (
            seq![
                EntryShape::Def {
                    name: name@,
                    type_vars: identifiers(vars@),
                    annotation: Some(ann),
                    docs: attached_docs(before),
                },
            ],
            None,
        ),
        Def::Body(_) => (Seq::empty(), None),
    }
}

/// `e` holds what `shape` says.
pub open spec fn shows(e: DocEntry, shape: EntryShape) -> bool {
    match shape {
        EntryShape::Detached(d) => match e {
            DocEntry::DetatchedDoc(s) => s@ == d,
            _ => false,
        },
        EntryShape::Def { name, type_vars, annotation, docs } => match e {
            DocEntry::DocDef(dd) => {
                &&& dd.name@ == name
                &&& dd.type_vars@.map_values(|v: String| v@) == type_vars
                &&& (dd.docs is Some <==> docs is Some)
                &&& dd.docs is Some ==> dd.docs->Some_0@ == docs->Some_0
                &&& match annotation {
                    None => dd.type_annotation is None,
                    Some(t) => {
                        &&& (dd.type_annotation is Some <==> documentable(t))
                        &&& dd.type_annotation is Some ==> renders(t, dd.type_annotation->Some_0)
                    },
                }
            },
            _ => false,
        },
    }
}

/// `out` is `acc` followed by entries that hold `shapes`.
pub open spec fn extends_with(acc: Seq<DocEntry>, out: Seq<DocEntry>, shapes: Seq<EntryShape>) -> bool {
    &&& out.len() == acc.len() + shapes.len()
    &&& forall|k: int| 0 <= k < acc.len() ==> #[trigger] out[k] == acc[k]
    &&& forall|k: int| 0 <= k < shapes.len() ==> shows(#[trigger] out[acc.len() + k], shapes[k])
}

/// The comments a definition may be preceded by, as a sequence.
pub open spec fn comments_view(before: Option<&[CommentOrNewline]>) -> Option<Seq<CommentOrNewline>> {
    match before {
        None => None,
        Some(c) => Some(c@),
    }
}

fn docs_before(before: Option<&[CommentOrNewline]>) -> (r: Option<String>)
    ensures
        r is Some <==> attached_docs(comments_view(before)) is Some,
        r is Some ==> r->Some_0@ == attached_docs(comments_view(before))->Some_0,
{
    match before {
        None => None,
        Some(c) => comments_or_new_lines_to_docs(c),
    }
}

fn is_exposed(ident_ids: &Vec<String>, ident: &String) -> (r: bool)
    ensures
        r == ident_ids@.map_values(|s: String| s@).contains(ident@),
{
    let ghost names = ident_ids@.map_values(|s: String| s@);
    let mut i: usize = 0;
    while i < ident_ids.len()
        invariant
            i <= ident_ids@.len(),
            names == ident_ids@.map_values(|s: String| s@),
            forall|k: int| 0 <= k < i ==> names[k] != ident@,
        decreases ident_ids@.len() - i,
    {
        if ident_ids[i] == *ident {
            assert(names[i as int] == ident@);
            return true;
        }
        i += 1;
    }
    false
}

/// Adds the entry of a value named by `pattern`, if it is an exposed
/// identifier.
fn push_value_doc(
    ident_ids: &Vec<String>,
    acc: &mut Vec<DocEntry>,
    before: Option<&[CommentOrNewline]>,
    pattern: &Pattern,
)
    ensures
        extends_with(
            old(acc)@,
            final(acc)@,
            value_shapes(
                ident_ids@.map_values(|s: String| s@),
                comments_view(before),
                *pattern,
            ),
        ),
{
    match pattern {
        Pattern::Identifier(identifier) => {
            if is_exposed(ident_ids, identifier) {
                let doc_def = DocDef {
                    name: identifier.clone(),
                    type_annotation: None,
                    type_vars: Vec::new(),
                    docs: docs_before(before),
                };
                assert(doc_def.type_vars@.map_values(|v: String| v@) =~= Seq::<Seq<char>>::empty());
                let ghost n = acc@.len();
                acc.push(DocEntry::DocDef(doc_def));
                assert(acc@[n as int + 0] == acc@.last());
            }
        },
        Pattern::Other => {},
    }
}

/// The identifiers among `vars`, in order.
fn type_vars_of(vars: &Vec<Pattern>) -> (r: Vec<String>)
    ensures
        r@.map_values(|s: String| s@) == identifiers(vars@),
{
    let mut type_vars: Vec<String> = Vec::new();
    let mut i: usize = 0;
    while i < vars.len()
        invariant
            i <= vars@.len(),
            type_vars@.map_values(|s: String| s@) == identifiers(vars@.subrange(0, i as int)),
        decreases vars@.len() - i,
    {
        proof {
            assert(vars@.subrange(0, i + 1).drop_last() =~= vars@.subrange(0, i as int));
        }
        let ghost before = type_vars@;
        if let Pattern::Identifier(ident_name) = &vars[i] {
            type_vars.push(ident_name.clone());
            assert(type_vars@.map_values(|s: String| s@) =~= before.map_values(|s: String| s@).push(
                ident_name@,
            ));
        }
        i += 1;
    }
    assert(vars@.subrange(0, vars@.len() as int) =~= vars@);
    type_vars
}

/// Adds the documentation entries of `def`, preceded by the comments
/// `before_comments_or_new_lines`, to `acc`; returns the entries and the
/// comments that carry over to the next definition.
pub fn generate_entry_doc<'a>(
    ident_ids: &Vec<String>,
    acc: Vec<DocEntry>,
    before_comments_or_new_lines: Option<&'a [CommentOrNewline]>,
    def: &'a Def,
) -> (r: (Vec<DocEntry>, Option<&'a [CommentOrNewline]>))
    ensures
        ({
            let shapes = entry_shapes(
                ident_ids@.map_values(|s: String| s@),
                comments_view(before_comments_or_new_lines),
                *def,
            );
            &&& extends_with(acc@, r.0@, shapes.0)
            &&& (r.1 is Some <==> shapes.1 is Some)
            &&& r.1 is Some ==> r.1->Some_0@ == shapes.1->Some_0
        }),
    decreases def,
{
    let mut acc = acc;
    let ghost exposed = ident_ids@.map_values(|s: String| s@);
    match def {
        Def::SpaceBefore(sub_def, comments_or_new_lines) => {
            let ghost acc0 = acc@;
            let detatched = detatched_docs_from_comments_and_new_lines(comments_or_new_lines.as_slice());
            let ghost blocks = doc_blocks(comments_or_new_lines@).0;
            let mut i: usize = 0;
            while i < detatched.len()
                invariant
                    i <= detatched@.len(),
                    detatched@.map_values(|s: String| s@) == blocks,
                    extends_with(
                        acc0,
                        acc@,
                        blocks.subrange(0, i as int).map_values(|d: Seq<char>| EntryShape::Detached(d)),
                    ),
                decreases detatched@.len() - i,
            {
                let ghost before = acc@;
                acc.push(DocEntry::DetatchedDoc(detatched[i].clone()));
                proof {
                    let old_shapes = blocks.subrange(0, i as int).map_values(|d: Seq<char>| EntryShape::Detached(d));
                    let new_shapes = blocks.subrange(0, i + 1).map_values(|d: Seq<char>| EntryShape::Detached(d));
                    assert(new_shapes =~= old_shapes.push(EntryShape::Detached(blocks[i as int])));
                    assert(blocks[i as int] == detatched@[i as int]@);
                    assert forall|k: int| 0 <= k < new_shapes.len() implies shows(#[trigger] acc@[acc0.len() + k], new_shapes[k]) by {
                        if k < old_shapes.len() {
                            assert(acc@[acc0.len() + k] == before[acc0.len() + k]);
                        }
                    }
                    assert forall|k: int| 0 <= k < acc0.len() implies #[trigger] acc@[k] == acc0[k] by {
                        assert(acc@[k] == before[k]);
                    }
                }
                i += 1;
            }
            let ghost acc1 = acc@;
            let ghost detached_shapes = blocks.map_values(|d: Seq<char>| EntryShape::Detached(d));
            proof {
                assert(blocks.subrange(0, blocks.len() as int) =~= blocks);
            }
            let r = generate_entry_doc(ident_ids, acc, Some(comments_or_new_lines.as_slice()), sub_def);
            proof {
                let inner = entry_shapes(exposed, Some(comments_or_new_lines@), **sub_def);
                let all = detached_shapes + inner.0;
                assert forall|k: int| 0 <= k < all.len() implies shows(#[trigger] r.0@[acc0.len() + k], all[k]) by {
                    if k < detached_shapes.len() {
                        assert(r.0@[acc0.len() + k] == acc1[acc0.len() + k]);
                    } else {
                        let j = k - detached_shapes.len();
                        assert(r.0@[acc1.len() + j] == r.0@[acc0.len() + k]);
                    }
                }
                assert forall|k: int| 0 <= k < acc0.len() implies #[trigger] r.0@[k] == acc0[k] by {
                    assert(r.0@[k] == acc1[k]);
                }
            }
            r
        },
        Def::SpaceAfter(sub_def, comments_or_new_lines) => {
            let (new_acc, _) = generate_entry_doc(ident_ids, acc, before_comments_or_new_lines, sub_def);
            (new_acc, Some(comments_or_new_lines.as_slice()))
        },
        Def::Annotation(loc_pattern, _) => {
            push_value_doc(ident_ids, &mut acc, before_comments_or_new_lines, loc_pattern);
            (acc, None)
        },
        Def::AnnotatedBody { ann_pattern, .. } => {
            push_value_doc(ident_ids, &mut acc, before_comments_or_new_lines, ann_pattern);
            (acc, None)
        },
        Def::Alias { name, vars, ann } => {
            let type_vars = type_vars_of(vars);
            let doc_def = DocDef {
                name: name.clone(),
                type_annotation: type_to_docs(ann),
                type_vars,
                docs: docs_before(before_comments_or_new_lines),
            };
            let ghost n = acc@.len();
            acc.push(DocEntry::DocDef(doc_def));
            assert(acc@[n as int + 0] == acc@.last());
            (acc, None)
        },
        Def::Body(_) => (acc, None),
    }
}

/// The entries of a module whose definitions are `defs`, read in order,
/// and the comments left after the last one.
pub open spec fn module_shapes(exposed: Seq<Seq<char>>, defs: Seq<Located<Def>>) -> (
    Seq<EntryShape>,
    Option<Seq<CommentOrNewline>>,
)
    decreases defs.len(),
{
    if defs.len() == 0 {
        (Seq::empty(), None)
    } else {
        let prev = module_shapes(exposed, defs.drop_last());
        let next = entry_shapes(exposed, prev.1, defs.last().value);
        (prev.0 + next.0, next.1)
    }
}

proof fn lemma_extends_compose(a: Seq<DocEntry>, b: Seq<DocEntry>, s1: Seq<EntryShape>, s2: Seq<EntryShape>)
    requires
        extends_with(Seq::empty(), a, s1),
        extends_with(a, b, s2),
    ensures
        extends_with(Seq::empty(), b, s1 + s2),
{
    let all = s1 + s2;
    assert forall|k: int| 0 <= k < all.len() implies shows(#[trigger] b[0 + k], all[k]) by {
        if k < s1.len() {
            assert(b[k] == a[k]);
            assert(a[0 + k] == a[k]);
        } else {
            let j = k - s1.len();
            assert(b[a.len() + j] == b[0 + k]);
        }
    }
}

/// The documentation of module `module_name`: the entries of its
/// definitions in order, each documented by the doc comments before it.
pub fn generate_module_docs(
    scope: im::HashMap<String, (Symbol, Region)>,
    module_name: &String,
    ident_ids: &Vec<String>,
    parsed_defs: &[Located<Def>],
) -> (r: ModuleDocumentation)
    ensures
        r.name@ == module_name@,
        r.scope == scope,
        extends_with(
            Seq::empty(),
            r.entries@,
            module_shapes(ident_ids@.map_values(|s: String| s@), parsed_defs@).0,
        ),
{
    let ghost exposed = ident_ids@.map_values(|s: String| s@);
    let mut entries: Vec<DocEntry> = Vec::new();
    let mut maybe_comments_after: Option<&[CommentOrNewline]> = None;
    let mut i: usize = 0;
    while i < parsed_defs.len()
        invariant
            i <= parsed_defs@.len(),
            exposed == ident_ids@.map_values(|s: String| s@),
            extends_with(Seq::empty(), entries@, module_shapes(exposed, parsed_defs@.subrange(0, i as int)).0),
            comments_view(maybe_comments_after) == module_shapes(exposed, parsed_defs@.subrange(0, i as int)).1,
        decreases parsed_defs@.len() - i,
    {
        let ghost before = entries@;
        proof {
            assert(parsed_defs@.subrange(0, i + 1).drop_last() =~= parsed_defs@.subrange(0, i as int));
        }
        let (new_entries, after) = generate_entry_doc(ident_ids, entries, maybe_comments_after, &parsed_defs[i].value);
        proof {
            let prev = module_shapes(exposed, parsed_defs@.subrange(0, i as int));
            let next = entry_shapes(exposed, prev.1, parsed_defs@[i as int].value);
            lemma_extends_compose(before, new_entries@, prev.0, next.0);
        }
        entries = new_entries;
        maybe_comments_after = after;
        i += 1;
    }
    proof {
        assert(parsed_defs@.subrange(0, parsed_defs@.len() as int) =~= parsed_defs@);
    }
    ModuleDocumentation { name: module_name.clone(), entries, scope }
}

} // verus!
