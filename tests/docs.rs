use roc_load::ast::{self, AssignedField, CommentOrNewline, Def, Pattern};
use roc_load::docs::{
    generate_entry_doc, generate_module_docs, record_field_to_doc, tag_to_doc, type_to_docs,
    DocDef, DocEntry, RecordField, Tag, TypeAnnotation,
};
use roc_load::imports::{Located, Region};

fn s(x: &str) -> String {
    x.to_string()
}

fn apply(module: &str, name: &str, parts: Vec<ast::TypeAnnotation>) -> ast::TypeAnnotation {
    ast::TypeAnnotation::Apply(s(module), s(name), parts)
}

fn at(def: Def) -> Located<Def> {
    Located { region: Region { start_line: 0, end_line: 0, start_col: 0, end_col: 0 }, value: def }
}

#[test]
fn apply_is_qualified_and_skips_undocumentable_parts() {
    let t = apply("Dict", "Dict", vec![apply("", "Str", vec![]), ast::TypeAnnotation::Other]);
    assert_eq!(
        type_to_docs(&t),
        Some(TypeAnnotation::Apply {
            name: s("Dict.Dict"),
            parts: vec![TypeAnnotation::Apply { name: s("Str"), parts: vec![] }],
        })
    );
}

#[test]
fn spaces_are_ignored_and_other_forms_skipped() {
    let t = ast::TypeAnnotation::SpaceBefore(Box::new(ast::TypeAnnotation::BoundVariable(s("a"))));
    assert_eq!(type_to_docs(&t), Some(TypeAnnotation::BoundVariable(s("a"))));
    assert_eq!(type_to_docs(&ast::TypeAnnotation::Other), None);
}

#[test]
fn private_tag_hides_the_union() {
    let public = || ast::Tag::Global { name: s("Ok"), args: vec![ast::TypeAnnotation::BoundVariable(s("a"))] };
    let private = || ast::Tag::Private { name: s("@Secret"), args: vec![] };
    let ok = ast::TypeAnnotation::TagUnion { tags: vec![public()], ext: Some(Box::new(ast::TypeAnnotation::BoundVariable(s("r")))) };
    assert_eq!(
        type_to_docs(&ok),
        Some(TypeAnnotation::TagUnion {
            tags: vec![Tag { name: s("Ok"), values: vec![TypeAnnotation::BoundVariable(s("a"))] }],
            extension: Some(Box::new(TypeAnnotation::BoundVariable(s("r")))),
        })
    );
    let hidden = ast::TypeAnnotation::TagUnion { tags: vec![public(), private()], ext: None };
    assert_eq!(type_to_docs(&hidden), None);
    assert_eq!(tag_to_doc(&private()), None);
    assert_eq!(tag_to_doc(&ast::Tag::Malformed(s("?"))), None);
}

#[test]
fn record_fields_render_or_hide_the_record() {
    let fields = || vec![
        AssignedField::RequiredValue(s("x"), apply("", "I64", vec![])),
        AssignedField::SpaceAfter(Box::new(AssignedField::OptionalValue(s("y"), ast::TypeAnnotation::BoundVariable(s("b"))))),
        AssignedField::LabelOnly(s("z")),
    ];
    let rec = ast::TypeAnnotation::Record { fields: fields() };
    assert_eq!(
        type_to_docs(&rec),
        Some(TypeAnnotation::Record {
            fields: vec![
                RecordField::RecordField { name: s("x"), type_annotation: TypeAnnotation::Apply { name: s("I64"), parts: vec![] } },
                RecordField::OptionalField { name: s("y"), type_annotation: TypeAnnotation::BoundVariable(s("b")) },
                RecordField::LabelOnly { name: s("z") },
            ],
        })
    );
    let mut bad = fields();
    bad.push(AssignedField::Malformed(s("!")));
    assert_eq!(type_to_docs(&ast::TypeAnnotation::Record { fields: bad }), None);
    assert_eq!(record_field_to_doc(&AssignedField::RequiredValue(s("f"), ast::TypeAnnotation::Other)), None);
}

#[test]
fn entry_doc_attaches_preceding_doc_comment() {
    let exposed = vec![s("main")];
    let def = Def::SpaceBefore(
        Box::new(Def::Annotation(Pattern::Identifier(s("main")), apply("", "Str", vec![]))),
        vec![
            CommentOrNewline::DocComment(s(" old")),
            CommentOrNewline::Newline,
            CommentOrNewline::DocComment(s(" The entry point")),
        ],
    );
    let (entries, after) = generate_entry_doc(&exposed, vec![], None, &def);
    assert!(after.is_none());
    assert_eq!(
        entries,
        vec![
            DocEntry::DetatchedDoc(s(" old\n")),
            DocEntry::DocDef(DocDef { name: s("main"), type_vars: vec![], type_annotation: None, docs: Some(s(" The entry point\n")) }),
        ]
    );
}

#[test]
fn unexposed_values_are_left_out() {
    let def = Def::AnnotatedBody { ann_pattern: Pattern::Identifier(s("helper")), ann_type: ast::TypeAnnotation::Other };
    let (entries, _) = generate_entry_doc(&vec![s("main")], vec![], None, &def);
    assert!(entries.is_empty());
}

#[test]
fn module_docs_carry_trailing_comments_to_the_next_alias() {
    let defs = vec![
        at(Def::SpaceAfter(Box::new(Def::Body(Pattern::Other)), vec![CommentOrNewline::DocComment(s(" A pair"))])),
        at(Def::Alias {
            name: s("Pair"),
            vars: vec![Pattern::Identifier(s("a")), Pattern::Other, Pattern::Identifier(s("b"))],
            ann: ast::TypeAnnotation::BoundVariable(s("a")),
        }),
    ];
    let docs = generate_module_docs(im::HashMap::new(), &s("Util"), &vec![], &defs);
    assert_eq!(docs.name, "Util");
    assert_eq!(
        docs.entries,
        vec![DocEntry::DocDef(DocDef {
            name: s("Pair"),
            type_vars: vec![s("a"), s("b")],
            type_annotation: Some(TypeAnnotation::BoundVariable(s("a"))),
            docs: Some(s(" A pair\n")),
        })]
    );
}
