//! Walks over the entities of an arena: up the scopes that enclose an entity,
//! and down its subtree for a dump.

use crate::ast::{
    child_in_order, node_in_order, Accessibility, Ast, AstNode, Entity, EntityKind,
    ExceptionSpecification, RefQualifier,
};
use vstd::prelude::*;
use vstd::string::StringExecFns;

verus! {

/// The entity at `entity` and the scopes that enclose it, innermost first,
/// without the outermost one, which no scope encloses.
pub open spec fn semantic_chain(nodes: Seq<AstNode>, entity: nat) -> Seq<usize>
    decreases entity,
{
    let parent = nodes[entity as int].entity.semantic_parent;
    if parent is Some && parent->0 < entity {
        seq![entity as usize] + semantic_chain(nodes, parent->0 as nat)
    } else {
        Seq::empty()
    }
}

/// A walk from an entity up the scopes that enclose it.
pub struct EntitySemanticParents {
    pub next: Option<usize>,
}

impl EntitySemanticParents {
    /// The entities that the walk has still to yield.
    pub open spec fn remaining(self, nodes: Seq<AstNode>) -> Seq<usize> {
        match self.next {
            Some(entity) => semantic_chain(nodes, entity as nat),
            None => Seq::empty(),
        }
    }

    /// Whether the walk stands in the arena.
    pub open spec fn in_arena(self, nodes: Seq<AstNode>) -> bool {
        self.next matches Some(entity) ==> entity < nodes.len()
    }

    /// A walk that starts at `entity`.
    pub fn new(entity: usize) -> (walk: Self)
        ensures
            walk.next == Some(entity),
    {
        EntitySemanticParents { next: Some(entity) }
    }

    /// Yields the next entity of the walk, or `None` when it has reached the
    /// outermost scope.
    pub fn next(&mut self, ast: &Ast) -> (entity: Option<usize>)
        requires
            ast.wf(),
            old(self).in_arena(ast@),
        ensures
            final(self).in_arena(ast@),
            match entity {
                Some(e) => old(self).remaining(ast@) == seq![e] + final(self).remaining(ast@)
                    && final(self).remaining(ast@).len() < old(self).remaining(ast@).len()
                    && e < ast@.len(),
                None => old(self).remaining(ast@).len() == 0 && final(self).next is None,
            },
    {
        let current = self.next;
        let parent = match current {
            Some(entity) => {
                proof {
                    assert(node_in_order(ast@, entity as int));
                }
                ast.node(entity).entity.semantic_parent
            },
            None => None,
        };
        self.next = parent;
        if parent.is_some() {
            current
        } else {
            None
        }
    }
}

/// The entity at `entity` and the scopes that enclose it, innermost first,
/// without the outermost one.
pub fn semantic_parents(ast: &Ast, entity: usize) -> (chain: Vec<usize>)
    requires
        ast.wf(),
        entity < ast@.len(),
    ensures
        chain@ == semantic_chain(ast@, entity as nat),
        forall|j: int| 0 <= j < chain@.len() ==> (#[trigger] chain@[j]) < ast@.len(),
{
    let mut walk = EntitySemanticParents::new(entity);
    let mut chain: Vec<usize> = Vec::new();
    loop
        invariant
            ast.wf(),
            walk.in_arena(ast@),
            semantic_chain(ast@, entity as nat) == chain@ + walk.remaining(ast@),
            forall|j: int| 0 <= j < chain@.len() ==> (#[trigger] chain@[j]) < ast@.len(),
        decreases walk.remaining(ast@).len(),
    {
        match walk.next(ast) {
            Some(scope) => {
                proof {
                    assert(chain@.push(scope) + walk.remaining(ast@) =~= chain@ + (seq![scope]
                        + walk.remaining(ast@)));
                }
                chain.push(scope);
            },
            None => {
                proof {
                    assert(chain@ + walk.remaining(ast@) =~= chain@);
                }
                return chain;
            },
        }
    }
}

/// A text in quotes, with what does not print escaped, as `{:?}` writes it.
pub uninterp spec fn quoted(text: Seq<char>) -> Seq<char>;

/// `format!` with `{:?}` on a `str`.
#[verifier::external_body]
pub(crate) fn quote(text: &str) -> (written: String)
    ensures
        written@ == quoted(text@),
{
    format!("{:?}", text)
}

/// The name that a kind goes by.
pub open spec fn kind_name(kind: EntityKind) -> Seq<char> {
    match kind {
        EntityKind::TranslationUnit => "TranslationUnit"@,
        EntityKind::Namespace => "Namespace"@,
        EntityKind::ClassDecl => "ClassDecl"@,
        EntityKind::StructDecl => "StructDecl"@,
        EntityKind::BaseSpecifier => "BaseSpecifier"@,
        EntityKind::Method => "Method"@,
        EntityKind::ParmDecl => "ParmDecl"@,
        EntityKind::Other(name) => name@,
    }
}

/// How the dump writes an accessibility.
pub open spec fn accessibility_text(accessibility: Option<Accessibility>) -> Seq<char> {
    match accessibility {
        Some(Accessibility::Private) => "Some(Private)"@,
        Some(Accessibility::Protected) => "Some(Protected)"@,
        Some(Accessibility::Public) => "Some(Public)"@,
        None => "None"@,
    }
}

/// How the dump marks a const member function.
pub open spec fn const_marker_text(is_const_method: bool) -> Seq<char> {
    if is_const_method {
        "Some(\"const\")"@
    } else {
        "None"@
    }
}

/// How the dump writes a reference qualifier.
pub open spec fn ref_qualifier_text(qualifier: Option<RefQualifier>) -> Seq<char> {
    match qualifier {
        Some(RefQualifier::LValue) => "Some(LValue)"@,
        Some(RefQualifier::RValue) => "Some(RValue)"@,
        None => "None"@,
    }
}

/// How the dump writes an exception specification.
pub open spec fn exception_specification_text(specification: Option<ExceptionSpecification>) -> Seq<
    char,
> {
    match specification {
        Some(ExceptionSpecification::BasicNoexcept) => "Some(BasicNoexcept)"@,
        Some(ExceptionSpecification::ComputedNoexcept) => "Some(ComputedNoexcept)"@,
        Some(ExceptionSpecification::Dynamic) => "Some(Dynamic)"@,
        Some(ExceptionSpecification::DynamicAny) => "Some(DynamicAny)"@,
        Some(ExceptionSpecification::DynamicNone) => "Some(DynamicNone)"@,
        Some(ExceptionSpecification::Unevaluated) => "Some(Unevaluated)"@,
        Some(ExceptionSpecification::Uninstantiated) => "Some(Uninstantiated)"@,
        Some(ExceptionSpecification::Unparsed) => "Some(Unparsed)"@,
        Some(ExceptionSpecification::NoThrow) => "Some(NoThrow)"@,
        None => "None"@,
    }
}

/// `level` tabs.
pub open spec fn tabs(level: nat) -> Seq<char>
    decreases level,
{
    if level == 0 {
        Seq::empty()
    } else {
        tabs((level - 1) as nat) + "\t"@
    }
}

/// The name of `entity`, or the empty text if it has none.
pub open spec fn name_or_empty(entity: Entity) -> Seq<char> {
    match entity.name {
        Some(name) => name@,
        None => ""@,
    }
}

/// The line of the dump for `entity` at depth `level`: the name in quotes,
/// the kind, and in parentheses the accessibility, the const marker, the
/// reference qualifier and the exception specification.
pub open spec fn dump_line(entity: Entity, level: nat) -> Seq<char> {
    tabs(level) + quoted(name_or_empty(entity)) + ": "@ + kind_name(entity.kind) + " ("@
        + accessibility_text(entity.accessibility) + ", "@ + const_marker_text(
        entity.is_const_method,
    ) + ", "@ + ref_qualifier_text(entity.ref_qualifier) + ", "@ + exception_specification_text(
        entity.exception_specification,
    ) + ")\n"@
}

/// The dump of the subtree at `entity`: its own line at depth `level`, then
/// the dumps of its children, one level deeper.
pub open spec fn dump_spec(nodes: Seq<AstNode>, entity: nat, level: nat) -> Seq<char>
    decreases nodes.len() - entity, 1nat, 0nat,
{
    dump_line(nodes[entity as int].entity, level) + dump_all_spec(
        nodes,
        nodes[entity as int].children@,
        entity,
        level + 1,
    )
}

/// The dumps of the subtrees at `children`, which are children of the entity
/// at `parent`, one after the other.
pub open spec fn dump_all_spec(nodes: Seq<AstNode>, children: Seq<usize>, parent: nat, level: nat) -> Seq<
    char,
>
    decreases nodes.len() - parent, 0nat, children.len(),
{
    if children.len() == 0 {
        Seq::empty()
    } else {
        let last = children.last();
        dump_all_spec(nodes, children.drop_last(), parent, level) + if parent < last < nodes.len() {
            dump_spec(nodes, last as nat, level)
        } else {
            Seq::empty()
        }
    }
}

fn accessibility_str(accessibility: Option<Accessibility>) -> (text: &'static str)
    ensures
        text@ == accessibility_text(accessibility),
{
    match accessibility {
        Some(Accessibility::Private) => "Some(Private)",
        Some(Accessibility::Protected) => "Some(Protected)",
        Some(Accessibility::Public) => "Some(Public)",
        None => "None",
    }
}

fn ref_qualifier_str(qualifier: Option<RefQualifier>) -> (text: &'static str)
    ensures
        text@ == ref_qualifier_text(qualifier),
{
    match qualifier {
        Some(RefQualifier::LValue) => "Some(LValue)",
        Some(RefQualifier::RValue) => "Some(RValue)",
        None => "None",
    }
}

fn exception_specification_str(specification: Option<ExceptionSpecification>) -> (text: &'static str)
    ensures
        text@ == exception_specification_text(specification),
{
    match specification {
        Some(ExceptionSpecification::BasicNoexcept) => "Some(BasicNoexcept)",
        Some(ExceptionSpecification::ComputedNoexcept) => "Some(ComputedNoexcept)",
        Some(ExceptionSpecification::Dynamic) => "Some(Dynamic)",
        Some(ExceptionSpecification::DynamicAny) => "Some(DynamicAny)",
        Some(ExceptionSpecification::DynamicNone) => "Some(DynamicNone)",
        Some(ExceptionSpecification::Unevaluated) => "Some(Unevaluated)",
        Some(ExceptionSpecification::Uninstantiated) => "Some(Uninstantiated)",
        Some(ExceptionSpecification::Unparsed) => "Some(Unparsed)",
        Some(ExceptionSpecification::NoThrow) => "Some(NoThrow)",
        None => "None",
    }
}

/// Appends the line of the dump for `entity` at depth `level`.
fn write_line(out: &mut String, entity: &Entity, level: usize)
    ensures
        final(out)@ == old(out)@ + dump_line(*entity, level as nat),
{
    let mut depth: usize = 0;
    let mut indent = String::new();
    while depth < level
        invariant
            depth <= level,
            indent@ == tabs(depth as nat),
        decreases level - depth,
    {
        indent.append("\t");
        depth += 1;
    }
    let name = match &entity.name {
        Some(name) => quote(name.as_str()),
        None => quote(""),
    };
    let mut line = indent;
    line.append(name.as_str());
    line.append(": ");
    match &entity.kind {
        EntityKind::TranslationUnit => line.append("TranslationUnit"),
        EntityKind::Namespace => line.append("Namespace"),
        EntityKind::ClassDecl => line.append("ClassDecl"),
        EntityKind::StructDecl => line.append("StructDecl"),
        EntityKind::BaseSpecifier => line.append("BaseSpecifier"),
        EntityKind::Method => line.append("Method"),
        EntityKind::ParmDecl => line.append("ParmDecl"),
        EntityKind::Other(kind) => line.append(kind.as_str()),
    }
    line.append(" (");
    line.append(accessibility_str(entity.accessibility));
    line.append(", ");
    line.append(if entity.is_const_method {
        "Some(\"const\")"
    } else {
        "None"
    });
    line.append(", ");
    line.append(ref_qualifier_str(entity.ref_qualifier));
    line.append(", ");
    line.append(exception_specification_str(entity.exception_specification));
    line.append(")\n");
    out.append(line.as_str());
}

/// Appends the dump of the subtree at `entity`, whose root is at depth `level`.
fn dump_ast(out: &mut String, ast: &Ast, entity: usize, level: usize)
    requires
        ast.wf(),
        entity < ast@.len(),
        level <= entity,
    ensures
        final(out)@ == old(out)@ + dump_spec(ast@, entity as nat, level as nat),
    decreases ast@.len() - entity,
{
    write_line(out, &ast.node(entity).entity, level);
    let children = &ast.node(entity).children;
    let ghost start = out@;
    let mut at: usize = 0;
    proof {
        assert(start + dump_all_spec(ast@, children@.take(0), entity as nat, (level + 1) as nat) =~= start);
    }
    while at < children.len()
        invariant
            ast.wf(),
            entity < ast@.len(),
            level <= entity,
            *children == ast@[entity as int].children,
            at <= children@.len(),
            out@ == start + dump_all_spec(
                ast@,
                children@.take(at as int),
                entity as nat,
                (level + 1) as nat,
            ),
        decreases children@.len() - at,
    {
        let child = children[at];
        proof {
            assert(node_in_order(ast@, entity as int));
            assert(child_in_order(ast@, entity as int, children@[at as int] as int));
            let upto = children@.take(at + 1);
            assert(upto.drop_last() =~= children@.take(at as int));
            assert(upto.last() == child);
        }
        dump_ast(out, ast, child, level + 1);
        proof {
            assert(out@ =~= start + dump_all_spec(
                ast@,
                children@.take(at + 1),
                entity as nat,
                (level + 1) as nat,
            ));
        }
        at += 1;
    }
    proof {
        assert(children@.take(at as int) =~= children@);
        assert(out@ =~= old(out)@ + dump_spec(ast@, entity as nat, level as nat));
    }
}

/// The dump of the subtree at `entity`: one line for each entity, indented
/// by one tab for each level below `entity`.
pub fn dump_ast_to_string(ast: &Ast, entity: usize) -> (dump: String)
    requires
        ast.wf(),
        entity < ast@.len(),
    ensures
        dump@ == dump_spec(ast@, entity as nat, 0),
{
    let mut dump = String::new();
    dump_ast(&mut dump, ast, entity, 0);
    proof {
        assert(Seq::<char>::empty() + dump_spec(ast@, entity as nat, 0) =~= dump_spec(
            ast@,
            entity as nat,
            0,
        ));
    }
    dump
}

} // verus!
