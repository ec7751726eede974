//! A parsed translation unit as plain data: the entities of its syntax tree in
//! one arena, each named by its index.

use vstd::prelude::*;

verus! {

/// How a declaration or a base class specifier can be reached from outside.
#[derive(Clone, Copy, Debug, PartialEq, Eq, Structural)]
pub enum Accessibility {
    Private,
    Protected,
    Public,
}

/// The reference qualifier of a member function.
#[derive(Clone, Copy, Debug, PartialEq, Eq, Structural)]
pub enum RefQualifier {
    /// `&`
    LValue,
    /// `&&`
    RValue,
}

/// The exception specification of a function.
#[derive(Clone, Copy, Debug, PartialEq, Eq, Structural)]
pub enum ExceptionSpecification {
    /// `noexcept`
    BasicNoexcept,
    /// `noexcept(expression)`
    ComputedNoexcept,
    /// `throw(T1, T2)`
    Dynamic,
    /// `throw(...)`
    DynamicAny,
    /// `throw()`
    DynamicNone,
    Unevaluated,
    Uninstantiated,
    Unparsed,
    /// `__declspec(nothrow)`
    NoThrow,
}

/// The kind of a token.
#[derive(Clone, Copy, Debug, PartialEq, Eq, Structural)]
pub enum TokenKind {
    Comment,
    Identifier,
    Keyword,
    Literal,
    Punctuation,
}

/// A token of the source text: its kind, its spelling, and the offsets in the
/// source at which it starts and ends.
#[derive(Clone, Debug, PartialEq, Eq)]
pub struct Token {
    pub kind: TokenKind,
    pub spelling: String,
    pub start: u32,
    pub end: u32,
}

/// The kind of an entity. The kinds that nothing here tells apart are `Other`,
/// with the name that the kind goes by.
#[derive(Clone, Debug, PartialEq, Eq)]
pub enum EntityKind {
    TranslationUnit,
    Namespace,
    ClassDecl,
    StructDecl,
    BaseSpecifier,
    Method,
    ParmDecl,
    Other(String),
}

/// What is known of one entity, but for its children and arguments.
#[derive(Clone, Debug, PartialEq, Eq)]
pub struct Entity {
    pub kind: EntityKind,
    pub name: Option<String>,
    pub display_name: Option<String>,
    pub accessibility: Option<Accessibility>,
    pub is_const_method: bool,
    pub is_pure_virtual_method: bool,
    /// The reference qualifier of the entity's type.
    pub ref_qualifier: Option<RefQualifier>,
    pub exception_specification: Option<ExceptionSpecification>,
    /// The display name of the result type, for a function.
    pub result_type: Option<String>,
    /// The tokens of the entity's source range, if it has one.
    pub tokens: Option<Vec<Token>>,
    /// The scope that encloses the entity.
    pub semantic_parent: Option<usize>,
    /// The entity that defines what this one refers to.
    pub definition: Option<usize>,
}

/// An entity in the arena, with the entities below it.
#[derive(Debug)]
pub struct AstNode {
    pub entity: Entity,
    pub children: Vec<usize>,
    /// The parameters, for a function.
    pub arguments: Option<Vec<usize>>,
}

/// Whether `index` may stand where an optional link must point before `limit`.
pub open spec fn link_before(link: Option<usize>, limit: int) -> bool {
    link matches Some(target) ==> target < limit
}

/// Whether the entity at `child` is a base specifier that names a definition.
pub open spec fn names_base(nodes: Seq<AstNode>, child: int) -> bool {
    nodes[child].entity.kind is BaseSpecifier && nodes[child].entity.definition is Some
}

/// Whether `child` may stand among the children of `parent`: it comes later in
/// the arena, and a base class that it names is defined before `parent`.
pub open spec fn child_in_order(nodes: Seq<AstNode>, parent: int, child: int) -> bool {
    &&& parent < child < nodes.len()
    &&& names_base(nodes, child) ==> nodes[child].entity.definition->0 < parent
}

/// Whether the node at `index` keeps the order of the arena.
pub open spec fn node_in_order(nodes: Seq<AstNode>, index: int) -> bool {
    let node = nodes[index];
    &&& link_before(node.entity.semantic_parent, index)
    &&& link_before(node.entity.definition, index)
    &&& forall|j: int|
        0 <= j < node.children@.len() ==> child_in_order(nodes, index, #[trigger] node.children@[j] as int)
    &&& node.arguments matches Some(arguments) ==> forall|j: int|
        0 <= j < arguments@.len() ==> (#[trigger] arguments@[j]) < nodes.len()
}

/// Whether every node keeps the order of the arena: scopes and definitions come
/// before what refers to them, children after their parent, and a base class
/// before the class that derives from it.
pub open spec fn well_formed(nodes: Seq<AstNode>) -> bool {
    forall|i: int| 0 <= i < nodes.len() ==> #[trigger] node_in_order(nodes, i)
}

/// The entities of a translation unit. The first entity is the root.
pub struct Ast {
    nodes: Vec<AstNode>,
}

impl View for Ast {
    type V = Seq<AstNode>;

    closed spec fn view(&self) -> Seq<AstNode> {
        self.nodes@
    }
}

impl Ast {
    /// Whether the arena keeps its order. Every arena that the functions of
    /// this type have made does.
    pub open spec fn wf(&self) -> bool {
        well_formed(self@)
    }

    /// An arena without entities.
    pub fn new() -> (ast: Ast)
        ensures
            ast.wf(),
            ast@.len() == 0,
    {
        Ast { nodes: Vec::new() }
    }

    /// The number of entities.
    pub fn len(&self) -> (count: usize)
        ensures
            count == self@.len(),
    {
        self.nodes.len()
    }

    /// The node at `index`.
    pub fn node(&self, index: usize) -> (node: &AstNode)
        requires
            index < self@.len(),
        ensures
            *node == self@[index as int],
    {
        &self.nodes[index]
    }

    /// Adds an entity without children, and gives its index. An entity whose
    /// scope or definition is not in the arena yet is not added.
    pub fn push(&mut self, entity: Entity) -> (index: Option<usize>)
        requires
            old(self).wf(),
        ensures
            final(self).wf(),
            match index {
                Some(i) => {
                    &&& i == old(self)@.len()
                    &&& final(self)@.len() == i + 1
                    &&& final(self)@.take(i as int) == old(self)@
                    &&& final(self)@[i as int].entity == entity
                    &&& final(self)@[i as int].children@.len() == 0
                    &&& final(self)@[i as int].arguments is None
                },
                None => final(self)@ == old(self)@,
            },
            index is Some <==> link_before(entity.semantic_parent, old(self)@.len() as int)
                && link_before(entity.definition, old(self)@.len() as int),
    {
        let count = self.nodes.len();
        let scope_known = match entity.semantic_parent {
            Some(target) => target < count,
            None => true,
        };
        let definition_known = match entity.definition {
            Some(target) => target < count,
            None => true,
        };
        if scope_known && definition_known {
            let ghost before = self.nodes@;
            self.nodes.push(AstNode { entity, children: Vec::new(), arguments: None });
            proof {
                let after = self.nodes@;
                assert(after.take(count as int) =~= before);
                assert forall|i: int| 0 <= i < after.len() implies #[trigger] node_in_order(
                    after,
                    i,
                ) by {
                    if i < count {
                        assert(node_in_order(before, i));
                        assert(after[i] == before[i]);
                        assert forall|j: int| 0 <= j < after[i].children@.len() implies child_in_order(
                            after,
                            i,
                            #[trigger] after[i].children@[j] as int,
                        ) by {
                            let c = before[i].children@[j] as int;
                            assert(child_in_order(before, i, c));
                            assert(after[c] == before[c]);
                        }
                    }
                }
            }
            Some(count)
        } else {
            None
        }
    }

    /// Puts the entity at `child` last among the children of the entity at
    /// `parent`, and says whether it did: it does not where that would break
    /// the order of the arena.
    pub fn add_child(&mut self, parent: usize, child: usize) -> (added: bool)
        requires
            old(self).wf(),
        ensures
            final(self).wf(),
            added == child_in_order(old(self)@, parent as int, child as int),
            !added ==> final(self)@ == old(self)@,
            added ==> {
                &&& final(self)@.len() == old(self)@.len()
                &&& final(self)@[parent as int].children@ == old(self)@[parent as int].children@.push(child)
                &&& final(self)@[parent as int].entity == old(self)@[parent as int].entity
                &&& final(self)@[parent as int].arguments == old(self)@[parent as int].arguments
                &&& forall|i: int|
                    0 <= i < old(self)@.len() && i != parent ==> final(self)@[i] == old(self)@[i]
            },
    {
        let count = self.nodes.len();
        if !(parent < child && child < count) {
            return false;
        }
        let base_in_order = match (&self.nodes[child].entity.kind, self.nodes[child].entity.definition) {
            (EntityKind::BaseSpecifier, Some(definition)) => definition < parent,
            _ => true,
        };
        if !base_in_order {
            return false;
        }
        let ghost before = self.nodes@;
        self.nodes[parent].children.push(child);
        proof {
            let after = self.nodes@;
            assert forall|i: int| 0 <= i < after.len() implies #[trigger] node_in_order(after, i) by {
                assert(node_in_order(before, i));
                assert forall|j: int| 0 <= j < after[i].children@.len() implies child_in_order(
                    after,
                    i,
                    #[trigger] after[i].children@[j] as int,
                ) by {
                    if i == parent && j == before[i].children@.len() {
                        assert(after[i].children@[j] == child);
                    } else {
                        let c = before[i].children@[j] as int;
                        assert(after[i].children@[j] == c);
                        assert(child_in_order(before, i, c));
                    }
                }
            }
        }
        true
    }

    /// Sets the parameters of the function at `function`, and says whether it
    /// did: it does not where one of them is not in the arena.
    pub fn set_arguments(&mut self, function: usize, arguments: Vec<usize>) -> (set: bool)
        requires
            old(self).wf(),
        ensures
            final(self).wf(),
            set == (function < old(self)@.len() && forall|j: int|
                0 <= j < arguments@.len() ==> (#[trigger] arguments@[j]) < old(self)@.len()),
            !set ==> final(self)@ == old(self)@,
            set ==> {
                &&& final(self)@.len() == old(self)@.len()
                &&& final(self)@[function as int].arguments == Some(arguments)
                &&& final(self)@[function as int].entity == old(self)@[function as int].entity
                &&& final(self)@[function as int].children == old(self)@[function as int].children
                &&& forall|i: int|
                    0 <= i < old(self)@.len() && i != function ==> final(self)@[i] == old(self)@[i]
            },
    {
        let count = self.nodes.len();
        if function >= count {
            return false;
        }
        let mut at: usize = 0;
        while at < arguments.len()
            invariant
                at <= arguments@.len(),
                *self == *old(self),
                self.wf(),
                count == self.nodes@.len(),
                forall|j: int| 0 <= j < at ==> (#[trigger] arguments@[j]) < count,
            decreases arguments@.len() - at,
        {
            if arguments[at] >= count {
                return false;
            }
            at += 1;
        }
        let ghost before = self.nodes@;
        self.nodes[function].arguments = Some(arguments);
        proof {
            let after = self.nodes@;
            assert forall|i: int| 0 <= i < after.len() implies #[trigger] node_in_order(after, i) by {
                assert(node_in_order(before, i));
                assert forall|j: int| 0 <= j < after[i].children@.len() implies child_in_order(
                    after,
                    i,
                    #[trigger] after[i].children@[j] as int,
                ) by {
                    let c = before[i].children@[j] as int;
                    assert(child_in_order(before, i, c));
                }
            }
        }
        true
    }
}

} // verus!
