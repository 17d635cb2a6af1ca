use refdoc::ast::{
    Ast, ParameterDelegation, ParameterDescription, ReferenceTarget, Section,
    SpecificationReference,
};
use refdoc::enumeration::expand_variant;
use refdoc::function::parse;
use refdoc::lexer::tokenize;
use refdoc::parameter::value;
use refdoc::token::Token;

#[test]
fn items_of_a_document() {
    let tokens = tokenize("void Foo(int x);").unwrap();
    let mut ts: &[Token] = tokens.as_ref();
    let function = parse(&mut ts).unwrap();
    let delegation = ParameterDelegation { name: "x", target: &function };
    assert_eq!(delegation.target.ident, "Foo");
    let description = ParameterDescription { name: "x", description: "the first operand" };
    assert_eq!(description.clone(), description);
    let reference = SpecificationReference { title: "Buffers", target: ReferenceTarget::Core([6, 1, 0]) };
    assert_ne!(reference.target, ReferenceTarget::Shader([6, 1, 0]));
    assert_ne!(reference.target, ReferenceTarget::Table([6, 1]));
    let section = Section { title: "Buffers", numbers: [6, 1, 0] };
    let items = vec![
        Ast::Section(section.clone()),
        Ast::Function(function.clone()),
        Ast::Parameter(value("int", "x")),
        Ast::EnumVariant { name: "Color", variants: expand_variant("Color: {Red}").unwrap() },
    ];
    assert_eq!(items[0], Ast::Section(section));
    assert_eq!(items[1], Ast::Function(function));
    assert_eq!(
        items[3],
        Ast::EnumVariant { name: "Color", variants: vec!["ColorRed".to_string()] }
    );
}
