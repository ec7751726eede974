use mockery::ast::{
    Accessibility, Ast, Entity, EntityKind, ExceptionSpecification, RefQualifier, Token, TokenKind,
};
use mockery::ast_iterators::{dump_ast_to_string, semantic_parents, EntitySemanticParents};
use mockery::mock_generation::{
    find_class_entity, format_mock_method_definition, generate_mock_definition,
    get_abstract_methods, get_all_base_classes, get_direct_base_classes,
    get_method_const_qualifier, get_method_exception_specification,
    get_method_parameter_type_list, get_method_value_category_qualifier, get_qualified_name,
    get_type_spelling, is_class_entity,
};

// ---------------------------------------------------------------------------
// Building a translation unit by hand
// ---------------------------------------------------------------------------

const KEYWORDS: [&str; 9] = [
    "const", "int", "double", "float", "void", "unsigned", "bool", "char", "long",
];

/// Splits a piece of C++ source into tokens, with their offsets in it.
fn tokenize(source: &str, base: u32) -> Vec<Token> {
    let bytes = source.as_bytes();
    let mut tokens = Vec::new();
    let mut at = 0;
    while at < bytes.len() {
        let c = bytes[at] as char;
        if c.is_whitespace() {
            at += 1;
            continue;
        }
        let start = at;
        let kind;
        if source[at..].starts_with("/*") {
            at = at + 2 + source[at + 2..].find("*/").unwrap() + 2;
            kind = TokenKind::Comment;
        } else if c.is_alphabetic() || c == '_' {
            while at < bytes.len() && ((bytes[at] as char).is_alphanumeric() || bytes[at] == b'_') {
                at += 1;
            }
            kind = if KEYWORDS.contains(&&source[start..at]) {
                TokenKind::Keyword
            } else {
                TokenKind::Identifier
            };
        } else if c.is_numeric() {
            while at < bytes.len() && (bytes[at] as char).is_alphanumeric() {
                at += 1;
            }
            kind = TokenKind::Literal;
        } else {
            at += if source[at..].starts_with("&&") || source[at..].starts_with("::") {
                2
            } else {
                1
            };
            kind = TokenKind::Punctuation;
        }
        tokens.push(Token {
            kind,
            spelling: source[start..at].to_string(),
            start: base + start as u32,
            end: base + at as u32,
        });
    }
    tokens
}

fn entity(kind: EntityKind, name: Option<&str>) -> Entity {
    Entity {
        kind,
        name: name.map(str::to_string),
        display_name: name.map(str::to_string),
        accessibility: None,
        is_const_method: false,
        is_pure_virtual_method: false,
        ref_qualifier: None,
        exception_specification: None,
        result_type: None,
        tokens: None,
        semantic_parent: None,
        definition: None,
    }
}

fn other(kind: &str, name: Option<&str>) -> Entity {
    entity(EntityKind::Other(kind.to_string()), name)
}

/// A translation unit with nothing in it but its root.
fn translation_unit() -> Ast {
    let mut ast = Ast::new();
    let root = ast.push(entity(EntityKind::TranslationUnit, Some("interface.cpp")));
    assert_eq!(root, Some(0));
    ast
}

/// Adds `child` below `parent`, which is also its scope.
fn add(ast: &mut Ast, parent: usize, child: Entity) -> usize {
    let mut child = child;
    child.semantic_parent = Some(parent);
    let index = ast.push(child).unwrap();
    assert!(ast.add_child(parent, index));
    index
}

fn add_struct(ast: &mut Ast, parent: usize, name: &str) -> usize {
    add(ast, parent, entity(EntityKind::StructDecl, Some(name)))
}

fn add_class(ast: &mut Ast, parent: usize, name: &str) -> usize {
    add(ast, parent, entity(EntityKind::ClassDecl, Some(name)))
}

fn add_base(ast: &mut Ast, class: usize, base: usize, accessibility: Accessibility) -> usize {
    let display_name = ast.node(base).entity.display_name.clone();
    let mut specifier = entity(EntityKind::BaseSpecifier, display_name.as_deref());
    specifier.definition = Some(base);
    specifier.accessibility = Some(accessibility);
    add(ast, class, specifier)
}

/// A member function as its declaration shows it.
struct Function<'a> {
    result_type: &'a str,
    name: &'a str,
    /// The source of each parameter, and its name if it has one.
    parameters: Vec<(&'a str, Option<&'a str>)>,
    is_const: bool,
    ref_qualifier: Option<RefQualifier>,
    exception_specification: Option<ExceptionSpecification>,
    is_pure_virtual: bool,
}

fn function<'a>(result_type: &'a str, name: &'a str) -> Function<'a> {
    Function {
        result_type,
        name,
        parameters: vec![],
        is_const: false,
        ref_qualifier: None,
        exception_specification: None,
        is_pure_virtual: false,
    }
}

fn pure_virtual<'a>(result_type: &'a str, name: &'a str) -> Function<'a> {
    Function {
        is_pure_virtual: true,
        ..function(result_type, name)
    }
}

fn add_method(ast: &mut Ast, class: usize, function: Function) -> usize {
    let mut method = entity(EntityKind::Method, Some(function.name));
    method.display_name = Some(format!("{}()", function.name));
    method.accessibility = Some(Accessibility::Public);
    method.is_const_method = function.is_const;
    method.is_pure_virtual_method = function.is_pure_virtual;
    method.ref_qualifier = function.ref_qualifier;
    method.exception_specification = function.exception_specification;
    method.result_type = Some(function.result_type.to_string());
    let index = add(ast, class, method);
    let mut arguments = Vec::new();
    let mut offset = 100;
    for (source, name) in function.parameters {
        let mut parameter = entity(EntityKind::ParmDecl, name);
        parameter.tokens = Some(tokenize(source, offset));
        offset += source.len() as u32 + 2;
        arguments.push(add(ast, index, parameter));
    }
    assert!(ast.set_arguments(index, arguments));
    index
}

fn kinds_and_names(ast: &Ast, entities: &[usize]) -> Vec<(EntityKind, Option<String>)> {
    entities
        .iter()
        .map(|&e| {
            let found = &ast.node(e).entity;
            (found.kind.clone(), found.display_name.clone())
        })
        .collect()
}

fn expected_bases(bases: &[(EntityKind, Option<&str>)]) -> Vec<(EntityKind, Option<String>)> {
    bases
        .iter()
        .map(|(k, s)| (k.clone(), s.map(str::to_string)))
        .collect()
}

fn tokens(input: &str) -> Vec<String> {
    let mut found = Vec::new();
    for word in input.split_ascii_whitespace() {
        let mut current = String::new();
        for c in word.chars() {
            if "{[()]},.;:+-*/&|^!%#@=".contains(c) {
                if !current.is_empty() {
                    found.push(current.clone());
                    current.clear();
                }
                found.push(c.to_string());
            } else {
                current.push(c);
            }
        }
        if !current.is_empty() {
            found.push(current);
        }
    }
    found
}

fn assert_eq_upto_whitespace(left: &str, right: &str) {
    if tokens(left) != tokens(right) {
        assert_eq!(left, right);
    }
}

// ---------------------------------------------------------------------------
// Reading a translation unit from its source
// ---------------------------------------------------------------------------

fn get_temp_cpp_filename() -> String {
    "interface.cpp".to_string()
}

/// Where a declaration stands in the source.
struct Location {
    file: String,
    line: u32,
    column: u32,
}

/// A translation unit, with the place of each class in its source.
struct Unit {
    ast: Ast,
    places: Vec<(usize, u32, u32)>,
}

impl Unit {
    fn location(&self, entity: usize) -> Location {
        let place = self.places.iter().find(|place| place.0 == entity).unwrap();
        Location {
            file: get_temp_cpp_filename(),
            line: place.1,
            column: place.2,
        }
    }
}

/// Reads the declarations of namespaces, classes and member functions.
struct Reader<'a> {
    source: &'a str,
    tokens: Vec<Token>,
    at: usize,
    unit: Unit,
    /// The classes that were declared, by name.
    classes: Vec<(String, usize)>,
}

impl<'a> Reader<'a> {
    fn peek(&self) -> Option<&str> {
        self.tokens.get(self.at).map(|token| token.spelling.as_str())
    }

    fn next(&mut self) -> Token {
        let token = self.tokens[self.at].clone();
        self.at += 1;
        token
    }

    fn expect(&mut self, spelling: &str) {
        assert_eq!(self.next().spelling, spelling);
    }

    fn place(&self, token: &Token) -> (u32, u32) {
        let before = &self.source[..token.start as usize];
        let line = before.matches('\n').count() + 1;
        let column = before.len() - before.rfind('\n').map_or(0, |newline| newline + 1) + 1;
        (line as u32, column as u32)
    }

    fn angle_brackets(&mut self) {
        self.expect("<");
        let mut depth = 1;
        while depth > 0 {
            match self.next().spelling.as_str() {
                "<" => depth += 1,
                ">" => depth -= 1,
                _ => {}
            }
        }
    }

    fn items(&mut self, parent: usize) {
        while let Some(spelling) = self.peek().map(str::to_string) {
            match spelling.as_str() {
                "}" => return,
                "template" => {
                    self.next();
                    self.angle_brackets();
                    let keyword = self.next().spelling;
                    self.class(parent, &keyword, true);
                }
                "namespace" => {
                    self.next();
                    let name = self.next().spelling;
                    let namespace = add(
                        &mut self.unit.ast,
                        parent,
                        entity(EntityKind::Namespace, Some(&name)),
                    );
                    self.expect("{");
                    self.items(namespace);
                    self.expect("}");
                }
                "struct" | "class" => {
                    self.next();
                    self.class(parent, &spelling, false);
                }
                _ => self.member(parent),
            }
        }
    }

    fn class(&mut self, parent: usize, keyword: &str, is_template: bool) {
        let name = self.next();
        let mut bases = Vec::new();
        if self.peek() == Some(":") {
            self.next();
            loop {
                let mut accessibility = if keyword == "struct" {
                    Accessibility::Public
                } else {
                    Accessibility::Private
                };
                match self.peek() {
                    Some("public") => accessibility = Accessibility::Public,
                    Some("protected") => accessibility = Accessibility::Protected,
                    Some("private") => accessibility = Accessibility::Private,
                    _ => self.at -= 1,
                }
                self.at += 1;
                let base = self.next();
                let definition = if self.peek() == Some("<") {
                    self.angle_brackets();
                    let end = self.tokens[self.at - 1].end;
                    let display_name = &self.source[base.start as usize..end as usize];
                    // A specialization of a template stands outside the tree.
                    let mut specialization = entity(EntityKind::StructDecl, Some(&base.spelling));
                    specialization.display_name = Some(display_name.to_string());
                    specialization.semantic_parent = Some(parent);
                    self.unit.ast.push(specialization).unwrap()
                } else {
                    let declared = self.classes.iter().rev().find(|class| class.0 == base.spelling);
                    declared.unwrap().1
                };
                bases.push((definition, accessibility));
                if self.peek() == Some(",") {
                    self.next();
                } else {
                    break;
                }
            }
        }
        let kind = if is_template {
            EntityKind::Other("ClassTemplate".to_string())
        } else if keyword == "struct" {
            EntityKind::StructDecl
        } else {
            EntityKind::ClassDecl
        };
        let index = add(&mut self.unit.ast, parent, entity(kind, Some(&name.spelling)));
        let (line, column) = self.place(&name);
        self.unit.places.push((index, line, column));
        if !is_template {
            self.classes.push((name.spelling.clone(), index));
        }
        for (definition, accessibility) in bases {
            add_base(&mut self.unit.ast, index, definition, accessibility);
        }
        if self.peek() == Some("{") {
            self.next();
            self.items(index);
            self.expect("}");
        }
        self.expect(";");
    }

    fn member(&mut self, class: usize) {
        let start = self.tokens[self.at].start as usize;
        while self.peek() != Some(";") {
            self.next();
        }
        let end = self.next().end as usize;
        let function = parse_function(&self.source[start..end]);
        add_method(&mut self.unit.ast, class, function);
    }
}

/// Reads the declaration of a member function.
fn parse_function(declaration: &str) -> Function {
    let text = declaration.trim().strip_suffix(';').unwrap().trim_end();
    let (text, is_pure_virtual) = match text.strip_suffix("= 0") {
        Some(rest) => (rest.trim_end(), true),
        None => (text, false),
    };
    let text = text.strip_prefix("virtual ").unwrap_or(text);
    let open = text.find('(').unwrap();
    let close = text.rfind(')').unwrap();
    let (declared_type, name) = text[..open].trim().rsplit_once(' ').unwrap();
    let tail = text[close + 1..].trim();
    let (qualifiers, trailing_type) = match tail.split_once("->") {
        Some((qualifiers, trailing_type)) => (qualifiers.trim(), Some(trailing_type.trim())),
        None => (tail, None),
    };
    let is_const = qualifiers.starts_with("const");
    let qualifiers = qualifiers.strip_prefix("const").unwrap_or(qualifiers).trim_start();
    let (ref_qualifier, qualifiers) = if let Some(rest) = qualifiers.strip_prefix("&&") {
        (Some(RefQualifier::RValue), rest)
    } else if let Some(rest) = qualifiers.strip_prefix("&") {
        (Some(RefQualifier::LValue), rest)
    } else {
        (None, qualifiers)
    };
    let exception_specification = if qualifiers.trim() == "noexcept" {
        Some(ExceptionSpecification::BasicNoexcept)
    } else {
        None
    };
    Function {
        result_type: trailing_type.unwrap_or(declared_type.trim()),
        name,
        parameters: parse_parameters(&text[open + 1..close]),
        is_const,
        ref_qualifier,
        exception_specification,
        is_pure_virtual,
    }
}

/// Reads a parameter list: for each parameter, the source from its first
/// token to its name, or to its last token where it has no name; and the
/// name.
fn parse_parameters(list: &str) -> Vec<(&str, Option<&str>)> {
    let mut parameters = Vec::new();
    let mut current: Vec<Token> = Vec::new();
    let mut depth = 0;
    let mut tokens = tokenize(list, 0);
    tokens.push(Token {
        kind: TokenKind::Punctuation,
        spelling: ",".to_string(),
        start: list.len() as u32,
        end: list.len() as u32,
    });
    for token in tokens {
        match token.spelling.as_str() {
            "<" => depth += 1,
            ">" => depth -= 1,
            _ => {}
        }
        if token.kind == TokenKind::Comment {
            continue;
        }
        if token.spelling != "," || depth > 0 {
            current.push(token);
            continue;
        }
        if let (Some(first), Some(last)) = (current.first(), current.last()) {
            let source = &list[first.start as usize..last.end as usize];
            let name = if current.len() > 1 && last.kind == TokenKind::Identifier {
                Some(&list[last.start as usize..last.end as usize])
            } else {
                None
            };
            parameters.push((source, name));
        }
        current.clear();
    }
    parameters
}

fn parse_unit(source: &str) -> Unit {
    let mut reader = Reader {
        source,
        tokens: tokenize(source, 0),
        at: 0,
        unit: Unit {
            ast: translation_unit(),
            places: Vec::new(),
        },
        classes: Vec::new(),
    };
    reader.items(0);
    assert_eq!(reader.at, reader.tokens.len());
    reader.unit
}

fn test_tu_from_source<R, C: Fn(&Unit) -> R>(code: &str, callback: C) -> R {
    callback(&parse_unit(code))
}

fn test_class_from_source<C: Fn(&Unit, usize)>(code: &str, class_name: &str, callback: C) {
    test_tu_from_source(code, |tu| {
        callback(tu, find_class_entity(&tu.ast, class_name).unwrap());
    })
}

fn test_direct_base_classes(
    source: &str,
    derived_name: &str,
    expected: &[(EntityKind, Option<&str>)],
) {
    test_class_from_source(source, derived_name, |tu, class| {
        assert_eq!(
            expected_bases(expected),
            kinds_and_names(&tu.ast, &get_direct_base_classes(&tu.ast, class))
        );
    })
}

fn test_all_base_classes(
    source: &str,
    derived_name: &str,
    expected: &[(EntityKind, Option<&str>)],
) {
    test_class_from_source(source, derived_name, |tu, class| {
        assert_eq!(
            expected_bases(expected),
            kinds_and_names(&tu.ast, &get_all_base_classes(&tu.ast, class))
        );
    })
}

fn test_method_for_function<C: Fn(&Unit, usize)>(func_decl: &str, callback: C) {
    test_tu_from_source(
        &format!(
            r#"
                    template <typename T, typename U> struct pair;
                    struct TestClass {{ {} }};
                "#,
            func_decl
        ),
        |tu| {
            let class = find_class_entity(&tu.ast, "TestClass").unwrap();
            callback(tu, *tu.ast.node(class).children.first().unwrap())
        },
    )
}

fn assert_mock_for_function(func_decl: &str, mock_decl: &str) {
    test_method_for_function(func_decl, |tu, method| {
        assert_eq!(
            format_mock_method_definition(&tu.ast, method).unwrap(),
            mock_decl
        )
    });
}

#[test]
fn class_entity_is_found_in_file() {
    test_tu_from_source(
        r#"
                struct Foo {
                    int foo();
                };
            "#,
        |tu| {
            let class = find_class_entity(&tu.ast, "Foo").expect("Class entity was not found!");
            let loc = tu.location(class);
            assert_eq!(loc.file, get_temp_cpp_filename());
            assert_eq!(loc.line, 2);
            assert_eq!(loc.column, 24);
        },
    );
}

#[test]
fn class_entity_is_found_in_namespace() {
    test_tu_from_source(
        r#"
                template <typename T, typename U> struct map;
                struct string;
                
                namespace Bar {
                    struct Foo {
                        int foo();
                        virtual auto getPhoneBook() const -> map<string, unsigned int> = 0; 
                    };
                }
            "#,
        |tu| {
            let class = find_class_entity(&tu.ast, "Foo").expect("Class entity was not found!");
            let loc = tu.location(class);
            assert_eq!(loc.file, get_temp_cpp_filename());
            assert_eq!(loc.line, 6);
            assert_eq!(loc.column, 28);
        },
    );
}

#[test]
fn class_entity_is_found_for_nested_class() {
    test_tu_from_source(
        r#"
                struct Bar {
                    struct Foo {
                        int foo();
                    };
                };
            "#,
        |tu| {
            let class = find_class_entity(&tu.ast, "Foo").expect("Class entity was not found!");
            let loc = tu.location(class);
            assert_eq!(loc.file, get_temp_cpp_filename());
            assert_eq!(loc.line, 3);
            assert_eq!(loc.column, 28);
        },
    );
}

#[test]
fn class_entity_is_not_found() {
    test_tu_from_source(
        r#"
                struct Foo {
                    int foo();
                };
            "#,
        |tu| {
            assert!(find_class_entity(&tu.ast, "Bar").is_none());
        },
    );
}

#[test]
fn find_single_public_direct_base_class() {
    test_direct_base_classes(
        r#"
                struct Bar{};
                struct Foo : Bar {};
            "#,
        "Foo",
        &[(EntityKind::StructDecl, Some("Bar"))],
    )
}

#[test]
fn find_single_private_direct_base_class() {
    test_direct_base_classes(
        r#"
                class Bar{};
                class Foo : Bar {};
            "#,
        "Foo",
        &[(EntityKind::ClassDecl, Some("Bar"))],
    )
}

#[test]
fn find_multiple_public_direct_base_classes() {
    test_direct_base_classes(
        r#"
                struct Bar{};
                class Baz{};
                struct Foo : Bar, Baz {};
            "#,
        "Foo",
        &[(EntityKind::StructDecl, Some("Bar")), (EntityKind::ClassDecl, Some("Baz"))],
    )
}

#[test]
fn find_multiple_direct_base_classes_with_explicit_accessibility() {
    test_direct_base_classes(
        r#"
                struct Bar{};
                class Baz{};
                struct Foo : public Bar, private Baz {};
            "#,
        "Foo",
        &[(EntityKind::StructDecl, Some("Bar")), (EntityKind::ClassDecl, Some("Baz"))],
    )
}

#[test]
fn find_direct_template_base_classes() {
    test_direct_base_classes(
        r#"
                template <typename T> struct Bar{};
                struct Foo : Bar<Foo> {};
            "#,
        "Foo",
        &[(EntityKind::StructDecl, Some("Bar<Foo>"))],
    )
}

#[test]
fn find_direct_base_classes_ignoring_indirect_bases() {
    test_direct_base_classes(
        r#"
                struct Baz{};
                struct Bar : Baz {};
                struct Foo : Bar {};
            "#,
        "Foo",
        &[(EntityKind::StructDecl, Some("Bar"))],
    )
}

#[test]
fn find_all_base_classes_includes_indirect_bases() {
    test_all_base_classes(
        r#"
                struct Grandparent {};
                struct Parent : Grandparent {};
                struct Me : Parent {};
            "#,
        "Me",
        &[
            (EntityKind::StructDecl, Some("Grandparent")),
            (EntityKind::StructDecl, Some("Parent")),
        ],
    )
}

#[test]
fn find_all_base_classes_searches_multiple_generations() {
    test_all_base_classes(
        r#"
                struct Greatgrandparent {};
                struct Grandparent : Greatgrandparent {};
                struct Parent : Grandparent {};
                struct Me : Parent {};
            "#,
        "Me",
        &[
            (EntityKind::StructDecl, Some("Greatgrandparent")),
            (EntityKind::StructDecl, Some("Grandparent")),
            (EntityKind::StructDecl, Some("Parent")),
        ],
    )
}

#[test]
fn find_all_base_classes_follows_multiple_inheritance() {
    test_all_base_classes(
        r#"
                struct Dede {};
                struct Babaanne {};
                struct Anneanne {};
                struct Baba : Babaanne, Dede {};
                struct Anne : Anneanne, Dede {};
                struct Ben : Anne, Baba {};
            "#,
        "Ben",
        &[
            (EntityKind::StructDecl, Some("Anneanne")),
            (EntityKind::StructDecl, Some("Dede")),
            (EntityKind::StructDecl, Some("Anne")),
            (EntityKind::StructDecl, Some("Babaanne")),
            (EntityKind::StructDecl, Some("Dede")),
            (EntityKind::StructDecl, Some("Baba")),
        ],
    )
}

#[test]
fn mock_definition_for_simple_function() {
    assert_mock_for_function(
        "virtual void foo() = 0;",
        "MOCK_METHOD(void, foo, (), (override));",
    );
}

#[test]
fn mock_definition_for_function_with_return_type() {
    assert_mock_for_function(
        "virtual int foo() = 0;",
        "MOCK_METHOD(int, foo, (), (override));",
    );
}

#[test]
fn mock_definition_for_function_with_trailing_return_type() {
    assert_mock_for_function(
        "virtual auto foo() -> int = 0;",
        "MOCK_METHOD(int, foo, (), (override));",
    );
}

#[test]
fn mock_definition_for_function_with_unprotected_commas_in_return_type() {
    assert_mock_for_function(
        "virtual auto foo() -> pair<int, double> = 0;",
        "MOCK_METHOD((pair<int, double>), foo, (), (override));",
    );
}

#[test]
fn mock_definition_for_function_with_single_parameter() {
    assert_mock_for_function(
        "virtual void foo(int x) = 0;",
        "MOCK_METHOD(void, foo, (int), (override));",
    );
}

#[test]
fn mock_definition_for_function_with_multiple_parameters() {
    assert_mock_for_function(
        "virtual void foo(const int &x, const double *y, float z) = 0;",
        "MOCK_METHOD(void, foo, (const int &, const double *, float), (override));",
    );
}

#[test]
fn mock_definition_for_function_with_unnamed_parameters() {
    assert_mock_for_function(
        "virtual void foo(const int&, const double*, float) = 0;",
        "MOCK_METHOD(void, foo, (const int&, const double*, float), (override));",
    );
}

#[test]
fn mock_definition_for_function_using_east_const() {
    assert_mock_for_function(
        "virtual void foo(int const& x, double const* y, float const z) = 0;",
        "MOCK_METHOD(void, foo, (int const&, double const*, float const), (override));",
    );
}

#[test]
fn mock_definition_for_function_with_comments_in_parameters() {
    assert_mock_for_function(
        "virtual void foo(const int& /* reference */ x , const double* y /* pointer */, const float /* z */) = 0;",
        "MOCK_METHOD(void, foo, (const int&, const double*, const float), (override));",
    );
}

#[test]
fn mock_definition_for_function_with_unprotected_commas_in_parameters() {
    assert_mock_for_function(
        "virtual void foo(int, pair<int, double> y) = 0;",
        "MOCK_METHOD(void, foo, (int, (pair<int, double>)), (override));",
    );
}

#[test]
fn mock_definition_for_noexcept_function() {
    assert_mock_for_function(
        "virtual void foo() noexcept = 0;",
        "MOCK_METHOD(void, foo, (), (noexcept, override));",
    );
}

#[test]
fn mock_definition_for_const_qualified_function() {
    assert_mock_for_function(
        "virtual void foo() const = 0;",
        "MOCK_METHOD(void, foo, (), (const, override));",
    );
}

#[test]
fn mock_definition_for_lvalue_ref_qualified_function() {
    assert_mock_for_function(
        "virtual void foo() & = 0;",
        "MOCK_METHOD(void, foo, (), (ref(&), override));",
    );
}

#[test]
fn mock_definition_for_rvalue_ref_qualified_function() {
    assert_mock_for_function(
        "virtual void foo() && = 0;",
        "MOCK_METHOD(void, foo, (), (ref(&&), override));",
    );
}

#[test]
fn mock_definition_for_lvalue_const_ref_qualified_function() {
    assert_mock_for_function(
        "virtual void foo() const& = 0;",
        "MOCK_METHOD(void, foo, (), (const, ref(&), override));",
    );
}

#[test]
fn mock_definition_for_maximally_qualified_function() {
    assert_mock_for_function(
        "virtual void foo() const&& noexcept = 0;",
        "MOCK_METHOD(void, foo, (), (const, ref(&&), noexcept, override));",
    );
}

#[test]
fn mock_class_inherits_from_class() {
    test_class_from_source("struct Foo;", "Foo", |tu, class| {
        assert_eq_upto_whitespace(
            &generate_mock_definition(&tu.ast, class, "FooMock").unwrap(),
            "struct FooMock : Foo {};",
        )
    });
}

#[test]
fn mock_class_inherits_from_class_in_namespace() {
    test_class_from_source("namespace Bar { struct Foo; }", "Foo", |tu, class| {
        assert_eq_upto_whitespace(
            &generate_mock_definition(&tu.ast, class, "FooMock").unwrap(),
            "struct FooMock : Bar::Foo {};",
        )
    })
}

#[test]
fn mock_class_inherits_from_nested_class() {
    test_class_from_source("struct Bar { struct Foo; };", "Foo", |tu, class| {
        assert_eq_upto_whitespace(
            &generate_mock_definition(&tu.ast, class, "FooMock").unwrap(),
            "struct FooMock : Bar::Foo {};",
        )
    })
}

#[test]
fn only_pure_virtual_functions_are_mocked() {
    test_class_from_source(
        r#"
                struct Foo {
                    void foo();
                    virtual void bar();
                    virtual void baz() = 0;
                };
            "#,
        "Foo",
        |tu, class| {
            assert_eq_upto_whitespace(
                &generate_mock_definition(&tu.ast, class, "FooMock").unwrap(),
                r#"
                        struct FooMock : Foo {
                            MOCK_METHOD(void, baz, (), (override));
                        };
                    "#,
            )
        },
    )
}

#[test]
fn multiple_pure_virtual_functions_are_mocked() {
    test_class_from_source(
        r#"
                struct Foo {
                    virtual void baz() noexcept = 0;
                    virtual void bar() const = 0;
                    virtual void foo() = 0;
                };
            "#,
        "Foo",
        |tu, class| {
            assert_eq_upto_whitespace(
                &generate_mock_definition(&tu.ast, class, "FooMock").unwrap(),
                r#"
                        struct FooMock : Foo {
                            MOCK_METHOD(void, baz, (), (noexcept, override));
                            MOCK_METHOD(void, bar, (), (const, override));
                            MOCK_METHOD(void, foo, (), (override));
                        };
                    "#,
            )
        },
    )
}

#[test]
fn pure_virtual_functions_of_derived_interfaces_are_mocked() {
    test_class_from_source(
        r#"
                struct Baz {
                    virtual void baz() noexcept = 0;
                };
                
                struct Bar : Baz {
                    virtual void bar() const = 0;
                };
                
                struct Foo : Bar {
                    virtual void foo() = 0;
                };
            "#,
        "Foo",
        |tu, class| {
            assert_eq_upto_whitespace(
                &generate_mock_definition(&tu.ast, class, "FooMock").unwrap(),
                r#"
                        struct FooMock : Foo {
                            MOCK_METHOD(void, baz, (), (noexcept, override));
                            MOCK_METHOD(void, bar, (), (const, override));
                            MOCK_METHOD(void, foo, (), (override));
                        };
                    "#,
            )
        },
    )
}

// ---------------------------------------------------------------------------
// Finding the class
// ---------------------------------------------------------------------------

#[test]
fn class_entity_is_not_found_in_an_empty_arena() {
    assert!(find_class_entity(&Ast::new(), "Foo").is_none());
    assert!(find_class_entity(&translation_unit(), "Foo").is_none());
}

#[test]
fn entity_of_another_kind_with_the_name_is_passed_over() {
    // int Foo;
    // namespace Bar { struct Foo; }
    let mut ast = translation_unit();
    let variable = add(&mut ast, 0, other("VarDecl", Some("Foo")));
    let bar = add(&mut ast, 0, entity(EntityKind::Namespace, Some("Bar")));
    let foo = add_struct(&mut ast, bar, "Foo");

    assert!(!is_class_entity(&ast.node(variable).entity));
    assert_eq!(find_class_entity(&ast, "Foo"), Some(foo));
}

#[test]
fn class_on_the_same_level_as_a_variable_of_its_name_is_found() {
    // namespace Foo {}
    // class Foo2; struct Foo;
    let mut ast = translation_unit();
    add(&mut ast, 0, other("VarDecl", Some("Foo")));
    add_class(&mut ast, 0, "Other");
    let foo = add_class(&mut ast, 0, "Foo");

    assert_eq!(find_class_entity(&ast, "Foo"), Some(foo));
}

#[test]
fn nearer_class_wins_over_deeper_one_and_first_over_second() {
    let mut ast = translation_unit();
    let outer = add(&mut ast, 0, entity(EntityKind::Namespace, Some("Outer")));
    let deep = add_struct(&mut ast, outer, "Foo");
    let first = add_struct(&mut ast, 0, "Foo");
    let second = add_class(&mut ast, 0, "Foo");

    assert_eq!(find_class_entity(&ast, "Foo"), Some(first));
    assert!(deep < first && first < second);
}

// ---------------------------------------------------------------------------
// Base classes
// ---------------------------------------------------------------------------

fn diamond() -> Ast {
    // struct Dede {};
    // struct Babaanne {};
    // struct Anneanne {};
    // struct Baba : Babaanne, Dede {};
    // struct Anne : Anneanne, Dede {};
    // struct Ben : Anne, Baba {};
    let mut ast = translation_unit();
    let dede = add_struct(&mut ast, 0, "Dede");
    let babaanne = add_struct(&mut ast, 0, "Babaanne");
    let anneanne = add_struct(&mut ast, 0, "Anneanne");
    let baba = add_struct(&mut ast, 0, "Baba");
    add_base(&mut ast, baba, babaanne, Accessibility::Public);
    add_base(&mut ast, baba, dede, Accessibility::Public);
    let anne = add_struct(&mut ast, 0, "Anne");
    add_base(&mut ast, anne, anneanne, Accessibility::Public);
    add_base(&mut ast, anne, dede, Accessibility::Public);
    let ben = add_struct(&mut ast, 0, "Ben");
    add_base(&mut ast, ben, anne, Accessibility::Public);
    add_base(&mut ast, ben, baba, Accessibility::Public);
    ast
}

#[test]
fn common_grandparent_of_a_diamond_stands_twice() {
    let ast = diamond();
    let class = find_class_entity(&ast, "Ben").unwrap();
    let dede = find_class_entity(&ast, "Dede").unwrap();
    let bases = get_all_base_classes(&ast, class);
    assert_eq!(bases.iter().filter(|&&base| base == dede).count(), 2);
}

#[test]
fn ancestors_of_each_base_stand_directly_before_it() {
    let ast = diamond();
    let class = find_class_entity(&ast, "Ben").unwrap();
    let bases = get_all_base_classes(&ast, class);
    for (at, &base) in bases.iter().enumerate() {
        let own = get_all_base_classes(&ast, base);
        assert!(own.len() <= at);
        assert_eq!(&bases[at - own.len()..at], &own[..]);
    }
}

#[test]
fn class_without_bases_has_an_empty_closure() {
    let mut ast = translation_unit();
    let foo = add_struct(&mut ast, 0, "Foo");
    assert!(get_direct_base_classes(&ast, foo).is_empty());
    assert!(get_all_base_classes(&ast, foo).is_empty());
    assert!(get_abstract_methods(&ast, foo).is_empty());
}

#[test]
fn base_specifier_without_definition_names_no_base() {
    let mut ast = translation_unit();
    let foo = add_struct(&mut ast, 0, "Foo");
    add(&mut ast, foo, entity(EntityKind::BaseSpecifier, Some("Unknown")));
    assert!(get_direct_base_classes(&ast, foo).is_empty());
}

// ---------------------------------------------------------------------------
// Mock declarations of single member functions
// ---------------------------------------------------------------------------

#[test]
fn other_exception_specifications_are_not_written() {
    for specification in [
        ExceptionSpecification::ComputedNoexcept,
        ExceptionSpecification::Dynamic,
        ExceptionSpecification::DynamicAny,
        ExceptionSpecification::DynamicNone,
        ExceptionSpecification::Unevaluated,
        ExceptionSpecification::Uninstantiated,
        ExceptionSpecification::Unparsed,
        ExceptionSpecification::NoThrow,
    ] {
        let mut ast = translation_unit();
        let class = add_struct(&mut ast, 0, "TestClass");
        let method = add_method(
            &mut ast,
            class,
            Function {
                exception_specification: Some(specification),
                ..pure_virtual("void", "foo")
            },
        );
        assert_eq!(
            format_mock_method_definition(&ast, method).unwrap(),
            "MOCK_METHOD(void, foo, (), (override));"
        );
    }
}

#[test]
fn qualifiers_of_a_member_function() {
    let mut method = entity(EntityKind::Method, Some("foo"));
    assert_eq!(get_method_const_qualifier(&method), None);
    assert_eq!(get_method_value_category_qualifier(&method), None);
    assert_eq!(get_method_exception_specification(&method), None);
    method.is_const_method = true;
    method.ref_qualifier = Some(RefQualifier::RValue);
    method.exception_specification = Some(ExceptionSpecification::BasicNoexcept);
    assert_eq!(get_method_const_qualifier(&method), Some("const"));
    assert_eq!(get_method_value_category_qualifier(&method), Some("ref(&&)"));
    assert_eq!(get_method_exception_specification(&method), Some("noexcept"));
    method.ref_qualifier = Some(RefQualifier::LValue);
    method.exception_specification = Some(ExceptionSpecification::Dynamic);
    assert_eq!(get_method_value_category_qualifier(&method), Some("ref(&)"));
    assert_eq!(get_method_exception_specification(&method), None);
}

#[test]
fn member_function_that_lacks_a_part_has_no_mock_declaration() {
    let mut ast = translation_unit();
    let class = add_struct(&mut ast, 0, "Foo");
    // no result type
    let mut method = entity(EntityKind::Method, Some("foo"));
    method.is_pure_virtual_method = true;
    let without_result = add(&mut ast, class, method.clone());
    assert!(ast.set_arguments(without_result, vec![]));
    assert_eq!(format_mock_method_definition(&ast, without_result), None);
    // no parameter list
    method.result_type = Some("void".to_string());
    let without_arguments = add(&mut ast, class, method.clone());
    assert_eq!(get_method_parameter_type_list(&ast, without_arguments), None);
    assert_eq!(format_mock_method_definition(&ast, without_arguments), None);
    // a parameter without source range
    let with_bare_parameter = add(&mut ast, class, method.clone());
    let parameter = add(&mut ast, with_bare_parameter, entity(EntityKind::ParmDecl, Some("x")));
    assert!(ast.set_arguments(with_bare_parameter, vec![parameter]));
    assert_eq!(get_type_spelling(&ast.node(parameter).entity), None);
    assert_eq!(format_mock_method_definition(&ast, with_bare_parameter), None);
    // no name
    method.name = None;
    let without_name = add(&mut ast, class, method);
    assert!(ast.set_arguments(without_name, vec![]));
    assert_eq!(format_mock_method_definition(&ast, without_name), None);
    assert_eq!(generate_mock_definition(&ast, class, "FooMock"), None);
}

// ---------------------------------------------------------------------------
// Type spellings
// ---------------------------------------------------------------------------

fn spelling_of(source: &str, name: Option<&str>) -> Option<String> {
    let mut parameter = entity(EntityKind::ParmDecl, name);
    parameter.tokens = Some(tokenize(source, 40));
    get_type_spelling(&parameter)
}

#[test]
fn type_spelling_keeps_east_and_west_const_as_written() {
    assert_eq!(spelling_of("int const& x", Some("x")).unwrap(), "int const&");
    assert_eq!(spelling_of("const int& x", Some("x")).unwrap(), "const int&");
    assert_eq!(spelling_of("const int &x", Some("x")).unwrap(), "const int &");
    assert_eq!(spelling_of("int const&", None).unwrap(), "int const&");
}

#[test]
fn type_spelling_drops_comments_and_keeps_the_spacing() {
    assert_eq!(
        spelling_of("const int& /* reference */ x", Some("x")).unwrap(),
        "const int&"
    );
    assert_eq!(
        spelling_of("const /* a comment */ int& x", Some("x")).unwrap(),
        "const int&"
    );
    // A comment that touches the token before it leaves no space behind.
    assert_eq!(
        spelling_of("const/* y */int& x", Some("x")).unwrap(),
        "constint&"
    );
}

#[test]
fn type_spelling_writes_one_space_for_any_white_space() {
    assert_eq!(
        spelling_of("const   int  \n &  x", Some("x")).unwrap(),
        "const int &"
    );
    assert_eq!(spelling_of("unsigned long", None).unwrap(), "unsigned long");
}

#[test]
fn type_spelling_of_a_single_token_and_of_none() {
    assert_eq!(spelling_of("int", None).unwrap(), "int");
    assert_eq!(spelling_of("", None).unwrap(), "");
    assert_eq!(spelling_of("x", Some("x")).unwrap(), "");
}

#[test]
fn type_spelling_ends_at_the_first_token_spelled_as_the_name() {
    assert_eq!(spelling_of("x::y x", Some("x")).unwrap(), "");
    assert_eq!(spelling_of("y::x x", Some("x")).unwrap(), "y::");
}

#[test]
fn comma_protection_of_parameter_types() {
    let mut ast = translation_unit();
    let class = add_struct(&mut ast, 0, "Foo");
    let method = add_method(
        &mut ast,
        class,
        Function {
            parameters: vec![("pair<int, double> p", Some("p")), ("int x", Some("x"))],
            ..pure_virtual("void", "foo")
        },
    );
    assert_eq!(
        get_method_parameter_type_list(&ast, method),
        Some(vec!["pair<int, double>".to_string(), "int".to_string()])
    );
    assert_eq!(
        format_mock_method_definition(&ast, method).unwrap(),
        "MOCK_METHOD(void, foo, ((pair<int, double>), int), (override));"
    );
}

// ---------------------------------------------------------------------------
// The mock class
// ---------------------------------------------------------------------------

#[test]
fn mock_definition_is_written_letter_for_letter() {
    let mut ast = translation_unit();
    let bar = add(&mut ast, 0, entity(EntityKind::Namespace, Some("Bar")));
    let foo = add_struct(&mut ast, bar, "Foo");
    add_method(
        &mut ast,
        foo,
        Function {
            is_const: true,
            ..pure_virtual("void", "foo")
        },
    );
    add_method(
        &mut ast,
        foo,
        Function {
            parameters: vec![("int x", Some("x"))],
            ..pure_virtual("int", "bar")
        },
    );
    assert_eq!(
        generate_mock_definition(&ast, foo, "FooMock").unwrap(),
        "struct FooMock : Bar::Foo {\n\tMOCK_METHOD(void, foo, (), (const, override));\n\tMOCK_METHOD(int, bar, (int), (override));\n};"
    );
    let empty = add_struct(&mut ast, 0, "Empty");
    assert_eq!(
        generate_mock_definition(&ast, empty, "M").unwrap(),
        "struct M : Empty {\n\t\n};"
    );
}

#[test]
fn methods_of_a_twice_inherited_base_are_mocked_twice() {
    let mut ast = translation_unit();
    let dede = add_struct(&mut ast, 0, "Dede");
    let method = add_method(&mut ast, dede, pure_virtual("void", "dede"));
    let baba = add_struct(&mut ast, 0, "Baba");
    add_base(&mut ast, baba, dede, Accessibility::Public);
    let anne = add_struct(&mut ast, 0, "Anne");
    add_base(&mut ast, anne, dede, Accessibility::Public);
    let ben = add_struct(&mut ast, 0, "Ben");
    add_base(&mut ast, ben, anne, Accessibility::Public);
    add_base(&mut ast, ben, baba, Accessibility::Public);
    assert_eq!(get_abstract_methods(&ast, ben), vec![method, method]);
}

// ---------------------------------------------------------------------------
// Scopes
// ---------------------------------------------------------------------------

#[test]
fn qualified_name_goes_from_the_outermost_scope_inwards() {
    let mut ast = translation_unit();
    let a = add(&mut ast, 0, entity(EntityKind::Namespace, Some("a")));
    let b = add(&mut ast, a, entity(EntityKind::Namespace, Some("b")));
    let outer = add_struct(&mut ast, b, "Outer");
    let inner = add_class(&mut ast, outer, "Inner");
    assert_eq!(semantic_parents(&ast, inner), vec![inner, outer, b, a]);
    assert_eq!(get_qualified_name(&ast, inner).unwrap(), "a::b::Outer::Inner");
    assert_eq!(get_qualified_name(&ast, a).unwrap(), "a");
    assert_eq!(get_qualified_name(&ast, 0).unwrap(), "");
    assert!(semantic_parents(&ast, 0).is_empty());
}

#[test]
fn qualified_name_needs_the_display_name_of_each_scope() {
    let mut ast = translation_unit();
    let anonymous = add(&mut ast, 0, entity(EntityKind::Namespace, None));
    let foo = add_struct(&mut ast, anonymous, "Foo");
    assert_eq!(get_qualified_name(&ast, foo), None);
    assert_eq!(generate_mock_definition(&ast, foo, "FooMock"), None);
}

#[test]
fn walk_up_the_scopes_ends_below_the_root() {
    let mut ast = translation_unit();
    let bar = add(&mut ast, 0, entity(EntityKind::Namespace, Some("Bar")));
    let foo = add_struct(&mut ast, bar, "Foo");
    let mut walk = EntitySemanticParents::new(foo);
    assert_eq!(walk.next(&ast), Some(foo));
    assert_eq!(walk.next(&ast), Some(bar));
    assert_eq!(walk.next(&ast), None);
    assert_eq!(walk.next(&ast), None);
}

// ---------------------------------------------------------------------------
// The arena
// ---------------------------------------------------------------------------

#[test]
fn arena_refuses_what_breaks_its_order() {
    let mut ast = translation_unit();
    let mut forward = entity(EntityKind::StructDecl, Some("Foo"));
    forward.semantic_parent = Some(1);
    assert_eq!(ast.push(forward.clone()), None);
    forward.semantic_parent = Some(0);
    forward.definition = Some(1);
    assert_eq!(ast.push(forward.clone()), None);
    assert_eq!(ast.len(), 1);
    forward.definition = None;
    let foo = ast.push(forward).unwrap();
    assert_eq!(foo, 1);
    // a child comes after its parent, and is in the arena
    assert!(!ast.add_child(foo, 0));
    assert!(!ast.add_child(foo, foo));
    assert!(!ast.add_child(0, 2));
    assert!(ast.add_child(0, foo));
    // a base is defined before the class that derives from it
    let mut specifier = entity(EntityKind::BaseSpecifier, Some("Foo"));
    specifier.definition = Some(foo);
    let own_base = ast.push(specifier).unwrap();
    assert!(!ast.add_child(foo, own_base));
    assert!(!ast.add_child(0, own_base));
    assert!(ast.node(foo).children.is_empty());
    let plain = ast.push(entity(EntityKind::BaseSpecifier, Some("Foo"))).unwrap();
    assert!(ast.add_child(0, plain));
    assert_eq!(ast.node(0).children, vec![foo, plain]);
    // parameters are in the arena
    assert!(!ast.set_arguments(foo, vec![0, 4]));
    assert!(!ast.set_arguments(4, vec![]));
    assert_eq!(ast.node(foo).arguments, None);
    assert!(ast.set_arguments(foo, vec![0, 2]));
    assert_eq!(ast.node(foo).arguments, Some(vec![0, 2]));
}

// ---------------------------------------------------------------------------
// The dump
// ---------------------------------------------------------------------------

#[test]
fn dump_ast_for_simple_class() {
    // namespace Bar {
    //     struct Foo {
    //         struct Baz;
    //
    //         bool foo(double x) const noexcept {
    //             return x >= 42.;
    //         }
    //
    //     private:
    //         int i = 42;
    //     };
    // }
    let mut ast = translation_unit();
    let bar = add(&mut ast, 0, entity(EntityKind::Namespace, Some("Bar")));
    let foo = add_struct(&mut ast, bar, "Foo");
    let mut baz = entity(EntityKind::StructDecl, Some("Baz"));
    baz.accessibility = Some(Accessibility::Public);
    add(&mut ast, foo, baz);
    let mut method = entity(EntityKind::Method, Some("foo"));
    method.accessibility = Some(Accessibility::Public);
    method.is_const_method = true;
    method.exception_specification = Some(ExceptionSpecification::BasicNoexcept);
    let method = add(&mut ast, foo, method);
    add(&mut ast, method, entity(EntityKind::ParmDecl, Some("x")));
    let body = add(&mut ast, method, other("CompoundStmt", None));
    let statement = add(&mut ast, body, other("ReturnStmt", None));
    let operator = add(&mut ast, statement, other("BinaryOperator", None));
    let unexposed = add(&mut ast, operator, other("UnexposedExpr", Some("x")));
    add(&mut ast, unexposed, other("DeclRefExpr", Some("x")));
    add(&mut ast, operator, other("FloatingLiteral", None));
    let mut specifier = other("AccessSpecifier", None);
    specifier.accessibility = Some(Accessibility::Private);
    add(&mut ast, foo, specifier);
    let mut field = other("FieldDecl", Some("i"));
    field.accessibility = Some(Accessibility::Private);
    let field = add(&mut ast, foo, field);
    add(&mut ast, field, other("IntegerLiteral", None));

    let first = *ast.node(0).children.first().unwrap();
    assert_eq!(
        dump_ast_to_string(&ast, first).trim(),
        r#"
"Bar": Namespace (None, None, None, None)
	"Foo": StructDecl (None, None, None, None)
		"Baz": StructDecl (Some(Public), None, None, None)
		"foo": Method (Some(Public), Some("const"), None, Some(BasicNoexcept))
			"x": ParmDecl (None, None, None, None)
			"": CompoundStmt (None, None, None, None)
				"": ReturnStmt (None, None, None, None)
					"": BinaryOperator (None, None, None, None)
						"x": UnexposedExpr (None, None, None, None)
							"x": DeclRefExpr (None, None, None, None)
						"": FloatingLiteral (None, None, None, None)
		"": AccessSpecifier (Some(Private), None, None, None)
		"i": FieldDecl (Some(Private), None, None, None)
			"": IntegerLiteral (None, None, None, None)
						"#
        .trim()
    );
}

#[test]
fn dump_writes_every_kind_and_qualifier() {
    let mut ast = translation_unit();
    let class = add_class(&mut ast, 0, "Wid\"get");
    let mut specifier = entity(EntityKind::BaseSpecifier, Some("Base"));
    specifier.accessibility = Some(Accessibility::Protected);
    add(&mut ast, class, specifier);
    let mut method = entity(EntityKind::Method, Some("run"));
    method.ref_qualifier = Some(RefQualifier::LValue);
    method.exception_specification = Some(ExceptionSpecification::DynamicNone);
    add(&mut ast, class, method.clone());
    method.ref_qualifier = Some(RefQualifier::RValue);
    method.exception_specification = Some(ExceptionSpecification::NoThrow);
    add(&mut ast, class, method);
    assert_eq!(
        dump_ast_to_string(&ast, 0),
        "\"interface.cpp\": TranslationUnit (None, None, None, None)\n\
         \t\"Wid\\\"get\": ClassDecl (None, None, None, None)\n\
         \t\t\"Base\": BaseSpecifier (Some(Protected), None, None, None)\n\
         \t\t\"run\": Method (None, None, Some(LValue), Some(DynamicNone))\n\
         \t\t\"run\": Method (None, None, Some(RValue), Some(NoThrow))\n"
    );
}
