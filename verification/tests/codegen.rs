use rankless::builder::MainBuilder;
use rankless::codegen::{get_gen_basis, get_gen_set, get_stack_type_elems};
use rankless::farr::{farr_text, FarrShape};
use rankless::meta_trait::{meta_trait_text, TraitItemShape, TraitShape};
use rankless::srecs::{spec_match, srec_text, srecs_text};
use rankless::stack_basis::stack_basis_text;

#[test]
fn number_type_generics_are_spelled_out() {
    assert_eq!(get_gen_set(3), "E3, const N3: usize, const S3: bool");
    assert_eq!(get_gen_basis(12), "IntX<E12, N12, S12>");
    let elems = get_stack_type_elems(&vec!["A".to_string(), "B".to_string(), "L".to_string()]);
    assert_eq!(
        elems,
        vec![
            "L".to_string(),
            "<B as FoldStackBase<L>>::StackElement".to_string(),
            "<A as FoldStackBase<<B as FoldStackBase<L>>::StackElement>>::StackElement".to_string(),
        ]
    );
}

#[test]
fn the_two_field_record_enum_is_written() {
    let t = srec_text(2);
    assert!(t.starts_with(
        "#[derive(Debug)]\n            pub enum SRecord2<T1, T2> {\n                Rec1(T2),\n                Rec2((T2, T1)),\n            }\n\n"
    ));
    assert!(t.contains(
        "\n    if rec.0 != last_rec.0 {\n        Some(Self::Rec2((rec.1, rec.0)))\n     } else if rec.1 != last_rec.1 { Some(Self::Rec1((rec.1))) \n    } else {\n        None\n    }"
    ));
    assert!(t.contains("\n\nSelf::Rec2((T2::init_empty(), T1::init_empty()))\n\n"));
    assert!(t.contains("pub fn fold<S1, S0, I>(mut it: I, root: &mut S0) where \n                I: Iterator<Item=Self>, \n                T1: Into<S1>, \n                T1: InitEmpty, T2: InitEmpty, \n                S1: ReinstateFrom<T1>, \n                S1: FoldingStackConsumer<Consumable=T2>,\n                S0: Updater<S1> \n"));
    assert!(t.contains("Self::Rec1(rec) => {\nstack.consume(rec)\n    }, Self::Rec2(rec) => {\nroot.update(stack, rec.1);stack.consume(rec.0);\n    }"));
    assert!(t.contains("if let Self::Rec2(rec) = self {"));
    assert_eq!(srecs_text(4).len(), 3);
    assert_eq!(srecs_text(4)[1], srec_text(3));
}

#[test]
fn a_record_folds_into_the_stack_level_by_level() {
    assert_eq!(spec_match(1, 1), "stack.1.consume(rec)");
    assert_eq!(
        spec_match(3, 1),
        "            stack.0.update(&mut stack.1, rec.1);\n            root.update(&mut stack.0, rec.2);\n            stack.1.consume(rec.0)"
    );
    assert_eq!(spec_match(2, 0), "root.update(stack, rec.1);stack.consume(rec.0);");
}

#[test]
fn the_entity_trait_gets_its_meta_struct() {
    let shape = TraitShape {
        public: true,
        name: "Entity".to_string(),
        generics: vec![],
        items: vec![
            TraitItemShape::Type("T".to_string()),
            TraitItemShape::Const("N".to_string(), "usize".to_string()),
            TraitItemShape::Const("NAME".to_string(), "& str".to_string()),
            TraitItemShape::Fn,
        ],
    };
    assert_eq!(
        meta_trait_text(&shape),
        r#"pub struct EntityTraitMeta {}

impl EntityTraitMeta { pub fn meta(entity_name: &str, t: &str, n: usize, name: & str) -> MetaElem { let impl_str = format!("impl Entity for {} {{ type T = {}; const N: usize = {}; const NAME: & str = \"{}\"; }}", entity_name,t,n,name);
let importables = vec!["Entity".to_string()];
MetaElem { impl_str, importables } } }"#
    );
}

#[test]
fn a_generic_trait_names_its_parameters_inline() {
    let shape = TraitShape {
        public: true,
        name: "MarkedAttribute".to_string(),
        generics: vec!["Marker".to_string()],
        items: vec![TraitItemShape::Type("AttributeEntity".to_string())],
    };
    assert_eq!(
        meta_trait_text(&shape),
        r#"pub struct MarkedAttributeTraitMeta {}

impl MarkedAttributeTraitMeta { pub fn meta(entity_name: &str, marker: &str, attributeentity: &str) -> MetaElem { let impl_str = format!("impl MarkedAttribute<{marker}> for {} {{ type AttributeEntity = {}; }}", entity_name,attributeentity);
let importables = vec!["MarkedAttribute".to_string()];
MetaElem { impl_str, importables } } }"#
    );
}

#[test]
fn a_struct_gets_its_fixed_byte_form() {
    let shape = FarrShape {
        name: "P".to_string(),
        fields: vec![("a".to_string(), "u8".to_string()), ("b".to_string(), "u16".to_string())],
    };
    assert_eq!(
        farr_text(&shape),
        "impl ByteFixArrayInterface for P\n\n<u8 as ByteFixArrayInterface>::S + <u16 as ByteFixArrayInterface>::S\n\n{ out.extend(self.a.to_fbytes());\nout.extend(self.b.to_fbytes()); }\n\nSelf { a: u8::from_fbytes(&buf[0..0 + <u8 as ByteFixArrayInterface>::S]),\nb: u16::from_fbytes(&buf[0 + <u8 as ByteFixArrayInterface>::S..0 + <u8 as ByteFixArrayInterface>::S + <u16 as ByteFixArrayInterface>::S]), }"
    );
}

#[test]
fn a_one_level_stack_basis_is_written() {
    let b = "IntX<E1, N1, S1>";
    let el = format!("<{b} as FoldStackBase<FoldingStackLeaf>>::StackElement");
    let expected = [
        "<E1, const N1: usize, const S1: bool>".to_string(),
        format!("({b})"),
        format!("where E1: NumberedEntity, {b}: FoldStackBase<FoldingStackLeaf>, {el}: From<NET<E1>> + ReinstateFrom<NET<E1>> + Updater<FoldingStackLeaf>"),
        "type SortedRec = rankless_rs::agg_tree::SRecord3<NET<E1>, WT, WT>;".to_string(),
        format!("type Stack = ({el}, FoldingStackLeaf);"),
        format!("fn get_bds() -> Vec<BreakdownSpec> {{\n            vec![to_bds::<{b}, FoldingStackLeaf>()]\n        }}"),
        format!("type TopTree = {el};"),
    ]
    .join("\n\n");
    assert_eq!(stack_basis_text(1), expected);
}

#[test]
fn the_builder_writes_the_entity_code() {
    let mut b = MainBuilder::new();
    assert_eq!(b.add_simple_etrait("works_count", "u32", 5, true), "WorksCount");
    b.declare_ns("works_count", "oa");
    b.add_scaled_entity("works_count", 300, false);
    assert_eq!(
        b.code_text(),
        "use dmove::{Entity, MappableEntity, NamespacedEntity};\n\npub struct WorksCount { }\n\nimpl Entity for WorksCount { type T = u32; const N: usize = 5; const NAME: & str = \"works_count\"; }\n\nimpl MappableEntity for WorksCount { type KeyType = usize; }\n\nimpl NamespacedEntity for WorksCount { const NS: & str = \"oa\"; }\n\nimpl Entity for WorksCount { type T = u16; const N: usize = 300; const NAME: & str = \"works_count\"; }"
    );
}
