//! From an interface class to the definition of its mock class: finding the
//! class, collecting the pure virtual member functions that it has and
//! inherits, and writing a mock declaration for each.

use crate::ast::{
    child_in_order, names_base, node_in_order, well_formed, Ast, AstNode, Entity, EntityKind,
    ExceptionSpecification, RefQualifier, Token, TokenKind,
};
use crate::ast_iterators::{semantic_chain, semantic_parents};
use crate::text::{
    all_or_none, circular_pairs, circular_pairs_spec, concat_all, interspersed, join, join_spec,
    join_with, lemma_all_or_none_missing, lemma_interspersed_parts_join, lemma_texts_push,
    option_seq, protect_commas, protect_commas_spec, reversed, text_of, texts, trim_end, trim_end_spec,
};
use vstd::prelude::*;
use vstd::string::StringExecFns;

verus! {

/// Whether `kind` is that of a class or a struct.
pub open spec fn is_class_kind(kind: EntityKind) -> bool {
    kind is ClassDecl || kind is StructDecl
}

/// Whether `entity` is a class or a struct.
pub fn is_class_entity(entity: &Entity) -> (class: bool)
    ensures
        class == is_class_kind(entity.kind),
{
    match &entity.kind {
        EntityKind::ClassDecl | EntityKind::StructDecl => true,
        _ => false,
    }
}

/// Whether the entity at `index` is a class or a struct with the name `name`.
pub open spec fn is_named_class(nodes: Seq<AstNode>, index: int, name: Seq<char>) -> bool {
    &&& is_class_kind(nodes[index].entity.kind)
    &&& nodes[index].entity.name matches Some(own) && own@ == name
}

/// The first of `level` that is a class or a struct with the name `name`.
pub open spec fn first_named_class(nodes: Seq<AstNode>, level: Seq<usize>, name: Seq<char>) -> Option<
    usize,
>
    decreases level.len(),
{
    if level.len() == 0 {
        None
    } else if is_named_class(nodes, level[0] as int, name) {
        Some(level[0])
    } else {
        first_named_class(nodes, level.drop_first(), name)
    }
}

/// The children of each of `level`, in order.
pub open spec fn children_of_all(nodes: Seq<AstNode>, level: Seq<usize>) -> Seq<usize>
    decreases level.len(),
{
    if level.len() == 0 {
        Seq::empty()
    } else {
        children_of_all(nodes, level.drop_last()) + nodes[level.last() as int].children@
    }
}

/// The entities `depth` levels below the root, in the order of their parents
/// and, under one parent, of its children.
pub open spec fn level_below_root(nodes: Seq<AstNode>, depth: nat) -> Seq<usize>
    decreases depth,
{
    if depth == 0 {
        if nodes.len() > 0 {
            seq![0usize]
        } else {
            Seq::empty()
        }
    } else {
        children_of_all(nodes, level_below_root(nodes, (depth - 1) as nat))
    }
}

/// The class named `name` that the level `depth` below the root shows first.
pub open spec fn class_at_depth(nodes: Seq<AstNode>, name: Seq<char>, depth: nat) -> Option<usize> {
    first_named_class(nodes, level_below_root(nodes, depth), name)
}

/// Whether the search for the class named `name` ends at `found`: at a class
/// of that name, the first of its level, with no such class on a level nearer
/// to the root; or at nothing, with no such class on any level.
pub open spec fn is_located(nodes: Seq<AstNode>, name: Seq<char>, found: Option<usize>) -> bool {
    match found {
        Some(index) => exists|depth: nat|
            {
                &&& depth >= 1
                &&& #[trigger] class_at_depth(nodes, name, depth) == Some(index)
                &&& forall|nearer: nat|
                    1 <= nearer < depth ==> #[trigger] class_at_depth(nodes, name, nearer) is None
            },
        None => forall|depth: nat| depth >= 1 ==> #[trigger] class_at_depth(nodes, name, depth) is None,
    }
}

/// The search for a class ends at one place only.
pub proof fn lemma_location_is_unique(
    nodes: Seq<AstNode>,
    name: Seq<char>,
    found: Option<usize>,
    other: Option<usize>,
)
    requires
        is_located(nodes, name, found),
        is_located(nodes, name, other),
    ensures
        found == other,
{
    if found is Some {
        let depth = choose|depth: nat|
            {
                &&& depth >= 1
                &&& #[trigger] class_at_depth(nodes, name, depth) == found
                &&& forall|nearer: nat|
                    1 <= nearer < depth ==> #[trigger] class_at_depth(nodes, name, nearer) is None
            };
        if other is Some {
            let other_depth = choose|depth: nat|
                {
                    &&& depth >= 1
                    &&& #[trigger] class_at_depth(nodes, name, depth) == other
                    &&& forall|nearer: nat|
                        1 <= nearer < depth ==> #[trigger] class_at_depth(nodes, name, nearer) is None
                };
            if depth < other_depth {
                assert(class_at_depth(nodes, name, depth) is None);
            } else if other_depth < depth {
                assert(class_at_depth(nodes, name, other_depth) is None);
            }
        } else {
            assert(class_at_depth(nodes, name, depth) is None);
        }
    } else if other is Some {
        let other_depth = choose|depth: nat|
            {
                &&& depth >= 1
                &&& #[trigger] class_at_depth(nodes, name, depth) == other
                &&& forall|nearer: nat|
                    1 <= nearer < depth ==> #[trigger] class_at_depth(nodes, name, nearer) is None
            };
        assert(class_at_depth(nodes, name, other_depth) is None);
    }
}

/// What `first_named_class` finds is one of the level, and a class or a struct
/// of that name: an entity of another kind never is, whatever its name and
/// its place.
pub proof fn lemma_first_named_class_is_class(
    nodes: Seq<AstNode>,
    level: Seq<usize>,
    name: Seq<char>,
)
    ensures
        first_named_class(nodes, level, name) matches Some(index) ==> level.contains(index)
            && is_named_class(nodes, index as int, name),
        first_named_class(nodes, level, name) is None ==> forall|j: int|
            0 <= j < level.len() ==> !is_named_class(nodes, #[trigger] level[j] as int, name),
    decreases level.len(),
{
    if level.len() > 0 {
        if is_named_class(nodes, level[0] as int, name) {
            assert(level[0] == level[0]);
        } else {
            let rest = level.drop_first();
            lemma_first_named_class_is_class(nodes, rest, name);
            match first_named_class(nodes, rest, name) {
                Some(index) => {
                    let j = choose|j: int| 0 <= j < rest.len() && rest[j] == index;
                    assert(level[j + 1] == index);
                },
                None => {
                    assert forall|j: int| 0 <= j < level.len() implies !is_named_class(
                        nodes,
                        #[trigger] level[j] as int,
                        name,
                    ) by {
                        if j > 0 {
                            assert(rest[j - 1] == level[j]);
                        }
                    }
                },
            }
        }
    }
}

/// Below an empty level every level is empty.
proof fn lemma_levels_stay_empty(nodes: Seq<AstNode>, depth: nat, deeper: nat)
    requires
        level_below_root(nodes, depth).len() == 0,
        depth <= deeper,
    ensures
        level_below_root(nodes, deeper).len() == 0,
    decreases deeper,
{
    if deeper > depth {
        lemma_levels_stay_empty(nodes, depth, (deeper - 1) as nat);
    }
}

/// The first of `level` that is a class or a struct with the name `name`.
fn find_in_level(ast: &Ast, level: &Vec<usize>, name: &String) -> (found: Option<usize>)
    requires
        forall|j: int| 0 <= j < level@.len() ==> (#[trigger] level@[j]) < ast@.len(),
    ensures
        found == first_named_class(ast@, level@, name@),
{
    let mut at: usize = 0;
    proof {
        assert(level@.skip(0) =~= level@);
    }
    while at < level.len()
        invariant
            at <= level@.len(),
            forall|j: int| 0 <= j < level@.len() ==> (#[trigger] level@[j]) < ast@.len(),
            first_named_class(ast@, level@, name@) == first_named_class(
                ast@,
                level@.skip(at as int),
                name@,
            ),
        decreases level@.len() - at,
    {
        let index = level[at];
        let entity = &ast.node(index).entity;
        let named = match &entity.name {
            Some(own) => *own == *name,
            None => false,
        };
        proof {
            let rest = level@.skip(at as int);
            assert(rest[0] == index);
            assert(rest.drop_first() =~= level@.skip(at + 1));
        }
        if named && is_class_entity(entity) {
            return Some(index);
        }
        at += 1;
    }
    None
}

/// The children of each of `level`, in order.
fn children_of_level(ast: &Ast, level: &Vec<usize>, Ghost(depth): Ghost<int>) -> (below: Vec<usize>)
    requires
        ast.wf(),
        forall|j: int| 0 <= j < level@.len() ==> depth <= (#[trigger] level@[j]) < ast@.len(),
    ensures
        below@ == children_of_all(ast@, level@),
        forall|j: int| 0 <= j < below@.len() ==> depth < (#[trigger] below@[j]) < ast@.len(),
{
    let mut below: Vec<usize> = Vec::new();
    let mut at: usize = 0;
    while at < level.len()
        invariant
            ast.wf(),
            at <= level@.len(),
            forall|j: int| 0 <= j < level@.len() ==> depth <= (#[trigger] level@[j]) < ast@.len(),
            below@ == children_of_all(ast@, level@.take(at as int)),
            forall|j: int| 0 <= j < below@.len() ==> depth < (#[trigger] below@[j]) < ast@.len(),
        decreases level@.len() - at,
    {
        let parent = level[at];
        let children = &ast.node(parent).children;
        let ghost before = below@;
        let mut k: usize = 0;
        while k < children.len()
            invariant
                ast.wf(),
                k <= children@.len(),
                parent < ast@.len(),
                depth <= parent,
                *children == ast@[parent as int].children,
                below@ == before + children@.take(k as int),
                forall|j: int| 0 <= j < below@.len() ==> depth < (#[trigger] below@[j]) < ast@.len(),
            decreases children@.len() - k,
        {
            proof {
                assert(node_in_order(ast@, parent as int));
                assert(child_in_order(ast@, parent as int, children@[k as int] as int));
                assert(children@.take(k + 1) =~= children@.take(k as int).push(children@[k as int]));
            }
            below.push(children[k]);
            k += 1;
        }
        proof {
            assert(children@.take(k as int) =~= children@);
            let upto = level@.take(at + 1);
            assert(upto.drop_last() =~= level@.take(at as int));
            assert(upto.last() == parent);
        }
        at += 1;
    }
    proof {
        assert(level@.take(at as int) =~= level@);
    }
    below
}

/// Finds the class or struct named `class_name`: the levels below the root
/// are gone through from the nearest on, each in the order of its entities,
/// and the first class or struct of that name is the one. An entity of
/// another kind is passed over, whatever its name.
pub fn find_class_entity(ast: &Ast, class_name: &str) -> (found: Option<usize>)
    requires
        ast.wf(),
    ensures
        is_located(ast@, class_name@, found),
        found matches Some(index) ==> index < ast@.len() && is_named_class(
            ast@,
            index as int,
            class_name@,
        ),
{
    let name = String::from_str(class_name);
    let count = ast.len();
    let mut level: Vec<usize> = Vec::new();
    if count > 0 {
        level.push(0);
    }
    let mut depth: usize = 0;
    proof {
        if count > 0 {
            assert(level@ =~= seq![0usize]);
        }
    }
    loop
        invariant
            ast.wf(),
            count == ast@.len(),
            name@ == class_name@,
            level@ == level_below_root(ast@, depth as nat),
            forall|j: int| 0 <= j < level@.len() ==> depth <= (#[trigger] level@[j]) < count,
            forall|nearer: nat|
                1 <= nearer <= depth ==> #[trigger] class_at_depth(ast@, class_name@, nearer) is None,
        decreases count - depth,
    {
        if level.len() == 0 {
            proof {
                assert forall|deeper: nat| deeper >= 1 implies #[trigger] class_at_depth(
                    ast@,
                    class_name@,
                    deeper,
                ) is None by {
                    if deeper > depth {
                        lemma_levels_stay_empty(ast@, depth as nat, deeper);
                    }
                }
            }
            return None;
        }
        proof {
            assert(depth <= level@[0] < count);
        }
        let below = children_of_level(ast, &level, Ghost(depth as int));
        let hit = find_in_level(ast, &below, &name);
        level = below;
        depth += 1;
        if let Some(index) = hit {
            proof {
                lemma_first_named_class_is_class(ast@, level@, class_name@);
                assert(class_at_depth(ast@, class_name@, depth as nat) == Some(index));
            }
            return Some(index);
        }
    }
}

/// The classes that the base specifiers among `children` name, in order.
pub open spec fn bases_among(nodes: Seq<AstNode>, children: Seq<usize>) -> Seq<usize>
    decreases children.len(),
{
    if children.len() == 0 {
        Seq::empty()
    } else {
        let rest = bases_among(nodes, children.drop_last());
        if names_base(nodes, children.last() as int) {
            rest.push(nodes[children.last() as int].entity.definition->0)
        } else {
            rest
        }
    }
}

/// The classes that the class at `class` derives from directly, in the order
/// of its base specifiers, whatever their accessibility.
pub open spec fn direct_bases(nodes: Seq<AstNode>, class: int) -> Seq<usize> {
    bases_among(nodes, nodes[class].children@)
}

/// Every class that the class at `class` derives from, directly or not: for
/// each direct base in order, first all that the base derives from, then the
/// base. A class reached on two ways stands there twice.
pub open spec fn all_bases(nodes: Seq<AstNode>, class: nat) -> Seq<usize>
    decreases class, 1nat, 0nat,
{
    closure_of(nodes, direct_bases(nodes, class as int), class)
}

/// For each of `bases` in order, all that it derives from and then itself.
/// The bases are those of a class at `limit`; each comes before it.
pub open spec fn closure_of(nodes: Seq<AstNode>, bases: Seq<usize>, limit: nat) -> Seq<usize>
    decreases limit, 0nat, bases.len(),
{
    if bases.len() == 0 {
        Seq::empty()
    } else {
        let base = bases.last();
        let above = if base < limit {
            all_bases(nodes, base as nat)
        } else {
            Seq::empty()
        };
        closure_of(nodes, bases.drop_last(), limit) + above + seq![base]
    }
}

/// Whether the entity at `index` is a pure virtual member function.
pub open spec fn is_pure_virtual(nodes: Seq<AstNode>) -> spec_fn(usize) -> bool {
    |index: usize| nodes[index as int].entity.is_pure_virtual_method
}

/// The pure virtual member functions that each of `classes` declares itself,
/// class by class, in the order of their declaration.
pub open spec fn pure_virtuals_of_all(nodes: Seq<AstNode>, classes: Seq<usize>) -> Seq<usize>
    decreases classes.len(),
{
    if classes.len() == 0 {
        Seq::empty()
    } else {
        pure_virtuals_of_all(nodes, classes.drop_last()) + nodes[classes.last() as int].children@.filter(
            is_pure_virtual(nodes),
        )
    }
}

/// The pure virtual member functions that the class at `class` inherits or
/// declares: those of its bases first, the bases in the order of
/// `all_bases`, then its own.
pub open spec fn abstract_methods(nodes: Seq<AstNode>, class: nat) -> Seq<usize> {
    pure_virtuals_of_all(nodes, all_bases(nodes, class).push(class as usize))
}

/// The member functions that a class inherits come before its own, which
/// come in the order of their declaration.
pub proof fn lemma_own_methods_come_last(nodes: Seq<AstNode>, class: nat)
    requires
        class <= usize::MAX,
    ensures
        abstract_methods(nodes, class) == pure_virtuals_of_all(nodes, all_bases(nodes, class))
            + nodes[class as int].children@.filter(is_pure_virtual(nodes)),
{
    let classes = all_bases(nodes, class).push(class as usize);
    assert(classes.drop_last() =~= all_bases(nodes, class));
    assert(classes.last() == class as usize);
}

/// The bases of a class come before it in the arena.
pub proof fn lemma_bases_come_before(nodes: Seq<AstNode>, class: int, children: Seq<usize>)
    requires
        well_formed(nodes),
        0 <= class < nodes.len(),
        forall|j: int| 0 <= j < children.len() ==> child_in_order(nodes, class, #[trigger] children[j] as int),
    ensures
        forall|j: int|
            0 <= j < bases_among(nodes, children).len() ==> (#[trigger] bases_among(nodes, children)[j]) < class,
    decreases children.len(),
{
    if children.len() > 0 {
        let rest = children.drop_last();
        assert forall|j: int| 0 <= j < rest.len() implies child_in_order(
            nodes,
            class,
            #[trigger] rest[j] as int,
        ) by {
            assert(rest[j] == children[j]);
        }
        lemma_bases_come_before(nodes, class, rest);
        let last = children[children.len() - 1];
        assert(child_in_order(nodes, class, last as int));
        let bases = bases_among(nodes, children);
        let before = bases_among(nodes, rest);
        assert forall|j: int| 0 <= j < bases.len() implies (#[trigger] bases[j]) < class by {
            if j < before.len() {
                assert(bases[j] == before[j]);
            }
        }
    }
}

/// Every class in the closure of the bases of a class comes before it.
pub proof fn lemma_all_bases_come_before(nodes: Seq<AstNode>, class: nat)
    requires
        well_formed(nodes),
        class < nodes.len(),
    ensures
        forall|j: int| 0 <= j < all_bases(nodes, class).len() ==> (#[trigger] all_bases(nodes, class)[j]) < class,
    decreases class, 1nat, 0nat,
{
    assert(node_in_order(nodes, class as int));
    lemma_bases_come_before(nodes, class as int, nodes[class as int].children@);
    let direct = direct_bases(nodes, class as int);
    lemma_closure_comes_before(nodes, direct, class);
    assert(all_bases(nodes, class) == closure_of(nodes, direct, class));
}

/// Every class in the closure of `bases` comes before `limit`, if they do.
pub proof fn lemma_closure_comes_before(nodes: Seq<AstNode>, bases: Seq<usize>, limit: nat)
    requires
        well_formed(nodes),
        limit <= nodes.len(),
        forall|j: int| 0 <= j < bases.len() ==> (#[trigger] bases[j]) < limit,
    ensures
        forall|j: int|
            0 <= j < closure_of(nodes, bases, limit).len() ==> (#[trigger] closure_of(nodes, bases, limit)[j])
                < limit,
    decreases limit, 0nat, bases.len(),
{
    if bases.len() > 0 {
        let base = bases.last();
        assert(base == bases[bases.len() - 1]);
        lemma_closure_comes_before(nodes, bases.drop_last(), limit);
        lemma_all_bases_come_before(nodes, base as nat);
        let whole = closure_of(nodes, bases, limit);
        let before = closure_of(nodes, bases.drop_last(), limit);
        let above = all_bases(nodes, base as nat);
        assert(whole == before + above + seq![base]);
        assert forall|j: int| 0 <= j < whole.len() implies (#[trigger] whole[j]) < limit by {
            if j < before.len() {
                assert(whole[j] == before[j]);
            } else if j < before.len() + above.len() {
                assert(whole[j] == above[j - before.len()]);
            } else {
                assert(whole[j] == base);
            }
        }
    }
}

/// Whether each class in `closure` comes right after all that it derives
/// from itself: its own closure stands directly before it.
pub open spec fn ancestors_come_first(nodes: Seq<AstNode>, closure: Seq<usize>) -> bool {
    forall|i: int|
        0 <= i < closure.len() ==> {
            let own = all_bases(nodes, (#[trigger] closure[i]) as nat);
            own.len() <= i && closure.subrange(i - own.len(), i) == own
        }
}

/// In the closure of the bases of a class, every class that a base derives
/// from stands before the base: the ancestors of each entry are the entries
/// directly before it.
pub proof fn lemma_ancestors_come_first(nodes: Seq<AstNode>, class: nat)
    requires
        well_formed(nodes),
        class < nodes.len(),
    ensures
        ancestors_come_first(nodes, all_bases(nodes, class)),
    decreases class, 1nat, 0nat,
{
    assert(node_in_order(nodes, class as int));
    lemma_bases_come_before(nodes, class as int, nodes[class as int].children@);
    lemma_ancestors_come_first_in_closure(nodes, direct_bases(nodes, class as int), class);
}

/// The same of the closure of `bases`, each of which comes before `limit`.
pub proof fn lemma_ancestors_come_first_in_closure(nodes: Seq<AstNode>, bases: Seq<usize>, limit: nat)
    requires
        well_formed(nodes),
        limit <= nodes.len(),
        forall|j: int| 0 <= j < bases.len() ==> (#[trigger] bases[j]) < limit,
    ensures
        ancestors_come_first(nodes, closure_of(nodes, bases, limit)),
    decreases limit, 0nat, bases.len(),
{
    if bases.len() > 0 {
        let base = bases.last();
        assert(base == bases[bases.len() - 1]);
        lemma_ancestors_come_first_in_closure(nodes, bases.drop_last(), limit);
        lemma_ancestors_come_first(nodes, base as nat);
        let whole = closure_of(nodes, bases, limit);
        let before = closure_of(nodes, bases.drop_last(), limit);
        let above = all_bases(nodes, base as nat);
        assert(whole == before + above + seq![base]);
        assert forall|i: int| 0 <= i < whole.len() implies ({
            let own = all_bases(nodes, (#[trigger] whole[i]) as nat);
            own.len() <= i && whole.subrange(i - own.len(), i) == own
        }) by {
            let own = all_bases(nodes, whole[i] as nat);
            if i < before.len() {
                assert(whole[i] == before[i]);
                assert(whole.subrange(i - own.len(), i) =~= before.subrange(i - own.len(), i));
            } else if i < before.len() + above.len() {
                let k = i - before.len();
                assert(whole[i] == above[k]);
                assert(whole.subrange(i - own.len(), i) =~= above.subrange(k - own.len(), k));
            } else {
                assert(whole[i] == base);
                assert(whole.subrange(i - own.len(), i) =~= above);
            }
        }
    }
}

/// The classes that the class at `class` derives from directly.
pub fn get_direct_base_classes(ast: &Ast, class: usize) -> (bases: Vec<usize>)
    requires
        ast.wf(),
        class < ast@.len(),
    ensures
        bases@ == direct_bases(ast@, class as int),
{
    let children = &ast.node(class).children;
    let mut bases: Vec<usize> = Vec::new();
    let mut at: usize = 0;
    while at < children.len()
        invariant
            ast.wf(),
            class < ast@.len(),
            *children == ast@[class as int].children,
            at <= children@.len(),
            bases@ == bases_among(ast@, children@.take(at as int)),
        decreases children@.len() - at,
    {
        let child = children[at];
        proof {
            assert(node_in_order(ast@, class as int));
            assert(child_in_order(ast@, class as int, children@[at as int] as int));
            let upto = children@.take(at + 1);
            assert(upto.drop_last() =~= children@.take(at as int));
            assert(upto.last() == child);
        }
        let entity = &ast.node(child).entity;
        match (&entity.kind, entity.definition) {
            (EntityKind::BaseSpecifier, Some(definition)) => {
                bases.push(definition);
            },
            _ => {},
        }
        at += 1;
    }
    proof {
        assert(children@.take(at as int) =~= children@);
    }
    bases
}

/// Every class that the class at `class` derives from, the bases of a class
/// before the class.
pub fn get_all_base_classes(ast: &Ast, class: usize) -> (bases: Vec<usize>)
    requires
        ast.wf(),
        class < ast@.len(),
    ensures
        bases@ == all_bases(ast@, class as nat),
    decreases class,
{
    let direct = get_direct_base_classes(ast, class);
    proof {
        assert(node_in_order(ast@, class as int));
        lemma_bases_come_before(ast@, class as int, ast@[class as int].children@);
    }
    let mut bases: Vec<usize> = Vec::new();
    let mut at: usize = 0;
    while at < direct.len()
        invariant
            ast.wf(),
            class < ast@.len(),
            direct@ == direct_bases(ast@, class as int),
            forall|j: int| 0 <= j < direct@.len() ==> (#[trigger] direct@[j]) < class,
            at <= direct@.len(),
            bases@ == closure_of(ast@, direct@.take(at as int), class as nat),
        decreases direct@.len() - at,
    {
        let base = direct[at];
        let mut above = get_all_base_classes(ast, base);
        proof {
            let upto = direct@.take(at + 1);
            assert(upto.drop_last() =~= direct@.take(at as int));
            assert(upto.last() == base);
        }
        bases.append(&mut above);
        bases.push(base);
        proof {
            assert(bases@ =~= closure_of(ast@, direct@.take(at as int), class as nat) + all_bases(
                ast@,
                base as nat,
            ) + seq![base]);
        }
        at += 1;
    }
    proof {
        assert(direct@.take(at as int) =~= direct@);
    }
    bases
}

/// The pure virtual member functions that the class at `class` inherits or
/// declares, those of its bases first.
pub fn get_abstract_methods(ast: &Ast, class: usize) -> (methods: Vec<usize>)
    requires
        ast.wf(),
        class < ast@.len(),
    ensures
        methods@ == abstract_methods(ast@, class as nat),
        forall|j: int| 0 <= j < methods@.len() ==> (#[trigger] methods@[j]) < ast@.len(),
{
    let mut classes = get_all_base_classes(ast, class);
    proof {
        lemma_all_bases_come_before(ast@, class as nat);
    }
    classes.push(class);
    let mut methods: Vec<usize> = Vec::new();
    let mut at: usize = 0;
    while at < classes.len()
        invariant
            ast.wf(),
            class < ast@.len(),
            classes@ == all_bases(ast@, class as nat).push(class),
            forall|j: int| 0 <= j < classes@.len() ==> (#[trigger] classes@[j]) <= class,
            at <= classes@.len(),
            methods@ == pure_virtuals_of_all(ast@, classes@.take(at as int)),
            forall|j: int| 0 <= j < methods@.len() ==> (#[trigger] methods@[j]) < ast@.len(),
        decreases classes@.len() - at,
    {
        let owner = classes[at];
        let children = &ast.node(owner).children;
        let ghost before = methods@;
        let ghost pure = is_pure_virtual(ast@);
        let mut k: usize = 0;
        proof {
            reveal(Seq::filter);
            assert(children@.take(0).filter(pure) =~= Seq::empty());
        }
        while k < children.len()
            invariant
                ast.wf(),
                owner < ast@.len(),
                *children == ast@[owner as int].children,
                pure == is_pure_virtual(ast@),
                k <= children@.len(),
                methods@ == before + children@.take(k as int).filter(pure),
                forall|j: int| 0 <= j < methods@.len() ==> (#[trigger] methods@[j]) < ast@.len(),
            decreases children@.len() - k,
        {
            let child = children[k];
            proof {
                assert(node_in_order(ast@, owner as int));
                assert(child_in_order(ast@, owner as int, children@[k as int] as int));
                let upto = children@.take(k + 1);
                let sofar = children@.take(k as int);
                assert(upto.drop_last() =~= sofar);
                assert(upto.last() == child);
                assert(upto.filter(pure) == if pure(child) {
                    sofar.filter(pure).push(child)
                } else {
                    sofar.filter(pure)
                }) by {
                    reveal(Seq::filter);
                }
            }
            if ast.node(child).entity.is_pure_virtual_method {
                methods.push(child);
            }
            proof {
                assert(methods@ =~= before + children@.take(k + 1).filter(pure));
            }
            k += 1;
        }
        proof {
            assert(children@.take(k as int) =~= children@);
            let upto = classes@.take(at + 1);
            assert(upto.drop_last() =~= classes@.take(at as int));
            assert(upto.last() == owner);
        }
        at += 1;
    }
    proof {
        assert(classes@.take(at as int) =~= classes@);
    }
    methods
}

/// What a token adds to a type spelling: its own spelling, and one space if
/// the token after it does not start where it ends.
pub open spec fn spelled_part(pair: (Token, Token)) -> Seq<char> {
    if pair.0.end != pair.1.start {
        pair.0.spelling@ + " "@
    } else {
        pair.0.spelling@
    }
}

/// What the tokens add to a type spelling, each paired with the one after
/// it: comments add nothing, and the first other token spelled as `name`
/// ends the spelling.
pub open spec fn spelled_parts(pairs: Seq<(Token, Token)>, name: Option<Seq<char>>) -> Seq<Seq<char>>
    decreases pairs.len(),
{
    if pairs.len() == 0 {
        Seq::empty()
    } else if pairs[0].0.kind is Comment {
        spelled_parts(pairs.drop_first(), name)
    } else if name == Some(pairs[0].0.spelling@) {
        Seq::empty()
    } else {
        seq![spelled_part(pairs[0])] + spelled_parts(pairs.drop_first(), name)
    }
}

/// The type of a parameter as its source spells it: the tokens of the
/// parameter up to its name, without comments, with one space wherever the
/// source has white space between two tokens, and none at the end.
pub open spec fn type_spelling_spec(entity: Entity) -> Option<Seq<char>> {
    match entity.tokens {
        Some(tokens) => Some(
            trim_end_spec(
                join_spec(
                    spelled_parts(circular_pairs_spec(tokens@), text_of(entity.name)),
                    Seq::empty(),
                ),
            ),
        ),
        None => None,
    }
}

/// The type of the parameter `entity` as its source spells it, or `None` if
/// the parameter has no source range.
pub fn get_type_spelling(entity: &Entity) -> (spelling: Option<String>)
    ensures
        text_of(spelling) == type_spelling_spec(*entity),
{
    match &entity.tokens {
        None => None,
        Some(tokens) => {
            let pairs = circular_pairs(tokens);
            let ghost name = text_of(entity.name);
            let mut parts: Vec<String> = Vec::new();
            let mut at: usize = 0;
            let mut ended = false;
            proof {
                assert(pairs@.skip(0) =~= pairs@);
                assert(texts(parts@) + spelled_parts(pairs@, name) =~= spelled_parts(pairs@, name));
            }
            while !ended && at < pairs.len()
                invariant
                    name == text_of(entity.name),
                    at <= pairs@.len(),
                    spelled_parts(pairs@, name) == texts(parts@) + if ended {
                        Seq::empty()
                    } else {
                        spelled_parts(pairs@.skip(at as int), name)
                    },
                decreases pairs@.len() - at, (if ended { 0nat } else { 1nat }),
            {
                let pair = &pairs[at];
                let is_name = match &entity.name {
                    Some(own) => pair.0.spelling == *own,
                    None => false,
                };
                proof {
                    let rest = pairs@.skip(at as int);
                    assert(rest[0] == *pair);
                    assert(rest.drop_first() =~= pairs@.skip(at + 1));
                }
                match pair.0.kind {
                    TokenKind::Comment => {
                        at += 1;
                    },
                    _ => {
                        if is_name {
                            ended = true;
                            proof {
                                assert(texts(parts@) + Seq::<Seq<char>>::empty() =~= texts(parts@));
                            }
                        } else {
                            let mut part = String::from_str(pair.0.spelling.as_str());
                            if pair.0.end != pair.1.start {
                                part.append(" ");
                            }
                            proof {
                                lemma_texts_push(parts@, part);
                                assert(texts(parts@).push(part@) + spelled_parts(
                                    pairs@.skip(at + 1),
                                    name,
                                ) =~= texts(parts@) + (seq![part@] + spelled_parts(
                                    pairs@.skip(at + 1),
                                    name,
                                )));
                            }
                            parts.push(part);
                            at += 1;
                        }
                    },
                }
            }
            proof {
                assert(texts(parts@) + Seq::<Seq<char>>::empty() =~= texts(parts@));
                assert(""@ =~= Seq::<char>::empty()) by {
                    reveal_strlit("");
                }
            }
            let joined = join_with(&parts, "");
            Some(trim_end(joined.as_str()))
        },
    }
}

/// `const`, for a const member function.
pub open spec fn const_qualifier_spec(method: Entity) -> Option<Seq<char>> {
    if method.is_const_method {
        Some("const"@)
    } else {
        None
    }
}

/// `ref(&)` or `ref(&&)`, for a member function with a reference qualifier.
pub open spec fn value_category_qualifier_spec(method: Entity) -> Option<Seq<char>> {
    match method.ref_qualifier {
        Some(RefQualifier::LValue) => Some("ref(&)"@),
        Some(RefQualifier::RValue) => Some("ref(&&)"@),
        None => None,
    }
}

/// `noexcept`, for a function that is plainly `noexcept`. No other exception
/// specification is written.
pub open spec fn exception_specification_spec(method: Entity) -> Option<Seq<char>> {
    match method.exception_specification {
        Some(ExceptionSpecification::BasicNoexcept) => Some("noexcept"@),
        _ => None,
    }
}

/// The text of a `&str` that may be missing.
pub open spec fn str_text_of(text: Option<&'static str>) -> Option<Seq<char>> {
    match text {
        Some(t) => Some(t@),
        None => None,
    }
}

/// `const`, for a const member function.
pub fn get_method_const_qualifier(method: &Entity) -> (qualifier: Option<&'static str>)
    ensures
        str_text_of(qualifier) == const_qualifier_spec(*method),
{
    if method.is_const_method {
        Some("const")
    } else {
        None
    }
}

/// `ref(&)` or `ref(&&)`, for a member function with a reference qualifier.
pub fn get_method_value_category_qualifier(method: &Entity) -> (qualifier: Option<&'static str>)
    ensures
        str_text_of(qualifier) == value_category_qualifier_spec(*method),
{
    match method.ref_qualifier {
        Some(RefQualifier::LValue) => Some("ref(&)"),
        Some(RefQualifier::RValue) => Some("ref(&&)"),
        None => None,
    }
}

/// `noexcept`, for a function that is plainly `noexcept`.
pub fn get_method_exception_specification(method: &Entity) -> (specification: Option<&'static str>)
    ensures
        str_text_of(specification) == exception_specification_spec(*method),
{
    match method.exception_specification {
        Some(ExceptionSpecification::BasicNoexcept) => Some("noexcept"),
        _ => None,
    }
}

/// The attributes of a mock declaration: those of the member function that
/// apply, `const` before the reference qualifier before `noexcept`, and
/// `override` last.
pub open spec fn attributes_spec(method: Entity) -> Seq<Seq<char>> {
    option_seq(const_qualifier_spec(method)) + option_seq(value_category_qualifier_spec(method))
        + option_seq(exception_specification_spec(method)) + seq!["override"@]
}

/// `override` is always among the attributes, and is the last of them.
pub proof fn lemma_override_is_last(method: Entity)
    ensures
        attributes_spec(method).len() > 0,
        attributes_spec(method).last() == "override"@,
{
}

/// The attributes of the mock declaration of `method`.
pub fn get_method_attributes(method: &Entity) -> (attributes: Vec<String>)
    ensures
        texts(attributes@) == attributes_spec(*method),
{
    let mut attributes: Vec<String> = Vec::new();
    proof {
        assert(texts(attributes@) =~= Seq::empty());
    }
    if let Some(qualifier) = get_method_const_qualifier(method) {
        let part = String::from_str(qualifier);
        proof {
            lemma_texts_push(attributes@, part);
        }
        attributes.push(part);
    }
    proof {
        assert(texts(attributes@) =~= option_seq(const_qualifier_spec(*method)));
    }
    if let Some(qualifier) = get_method_value_category_qualifier(method) {
        let part = String::from_str(qualifier);
        proof {
            lemma_texts_push(attributes@, part);
        }
        attributes.push(part);
    }
    proof {
        assert(texts(attributes@) =~= option_seq(const_qualifier_spec(*method)) + option_seq(
            value_category_qualifier_spec(*method),
        ));
    }
    if let Some(specification) = get_method_exception_specification(method) {
        let part = String::from_str(specification);
        proof {
            lemma_texts_push(attributes@, part);
        }
        attributes.push(part);
    }
    let last = String::from_str("override");
    proof {
        lemma_texts_push(attributes@, last);
        assert(texts(attributes@.push(last)) =~= attributes_spec(*method));
    }
    attributes.push(last);
    attributes
}

/// The type spelling of each of the parameters at `arguments`, where it has
/// one.
pub open spec fn parameter_types_spec(nodes: Seq<AstNode>, arguments: Seq<usize>) -> Seq<
    Option<Seq<char>>,
> {
    arguments.map_values(|index: usize| type_spelling_spec(nodes[index as int].entity))
}

/// The type spellings of the parameters of the function at `method`, or
/// `None` if it has no parameter list or one of them has no source range.
pub open spec fn method_parameter_types_spec(nodes: Seq<AstNode>, method: int) -> Option<
    Seq<Seq<char>>,
> {
    match nodes[method].arguments {
        Some(arguments) => all_or_none(parameter_types_spec(nodes, arguments@)),
        None => None,
    }
}

/// The texts of parts that may be missing as a whole.
pub open spec fn texts_of(parts: Option<Vec<String>>) -> Option<Seq<Seq<char>>> {
    match parts {
        Some(p) => Some(texts(p@)),
        None => None,
    }
}

/// The type spellings of the parameters of the function at `method`.
pub fn get_method_parameter_type_list(ast: &Ast, method: usize) -> (types: Option<Vec<String>>)
    requires
        ast.wf(),
        method < ast@.len(),
    ensures
        texts_of(types) == method_parameter_types_spec(ast@, method as int),
{
    match &ast.node(method).arguments {
        None => None,
        Some(arguments) => {
            let ghost given = parameter_types_spec(ast@, arguments@);
            let mut types: Vec<String> = Vec::new();
            let mut at: usize = 0;
            proof {
                assert(texts(types@) =~= Seq::empty());
                assert(node_in_order(ast@, method as int));
            }
            while at < arguments.len()
                invariant
                    ast.wf(),
                    method < ast@.len(),
                    ast@[method as int].arguments == Some(*arguments),
                    given == parameter_types_spec(ast@, arguments@),
                    at <= arguments@.len(),
                    forall|j: int| 0 <= j < arguments@.len() ==> (#[trigger] arguments@[j]) < ast@.len(),
                    all_or_none(given.take(at as int)) == Some(texts(types@)),
                decreases arguments@.len() - at,
            {
                let parameter = arguments[at];
                proof {
                    let upto = given.take(at + 1);
                    assert(upto.drop_last() =~= given.take(at as int));
                    assert(upto.last() == type_spelling_spec(ast@[parameter as int].entity));
                }
                match get_type_spelling(&ast.node(parameter).entity) {
                    Some(spelling) => {
                        proof {
                            lemma_texts_push(types@, spelling);
                        }
                        types.push(spelling);
                    },
                    None => {
                        proof {
                            assert(all_or_none(given.take(at + 1)) is None);
                            lemma_all_or_none_missing(given, at + 1);
                        }
                        return None;
                    },
                }
                at += 1;
            }
            proof {
                assert(given.take(at as int) =~= given);
            }
            Some(types)
        },
    }
}

/// Each of `types` with its commas protected.
pub open spec fn protect_all_spec(types: Seq<Seq<char>>) -> Seq<Seq<char>> {
    types.map_values(|ty: Seq<char>| protect_commas_spec(ty))
}

/// The mock declaration of the member function at `method`:
/// `MOCK_METHOD(<result type>, <name>, (<parameter types>), (<attributes>));`
/// or `None` if the function lacks a result type, a name, a parameter list or
/// the source range of a parameter.
pub open spec fn mock_method_spec(nodes: Seq<AstNode>, method: int) -> Option<Seq<char>> {
    let entity = nodes[method].entity;
    match (entity.result_type, entity.name, method_parameter_types_spec(nodes, method)) {
        (Some(result_type), Some(name), Some(types)) => Some(
            "MOCK_METHOD("@ + protect_commas_spec(result_type@) + ", "@ + name@ + ", ("@ + join_spec(
                protect_all_spec(types),
                ", "@,
            ) + "), ("@ + join_spec(attributes_spec(entity), ", "@) + "));"@,
        ),
        _ => None,
    }
}

/// Each of `types` with its commas protected.
fn protect_all(types: Vec<String>) -> (protected: Vec<String>)
    ensures
        texts(protected@) == protect_all_spec(texts(types@)),
{
    let ghost all = texts(types@);
    let mut protected: Vec<String> = Vec::new();
    for ty in it: types.into_iter()
        invariant
            texts(it.seq()) == all,
            texts(protected@) == protect_all_spec(all.take(it.index() as int)),
    {
        let guarded = protect_commas(ty);
        proof {
            lemma_texts_push(protected@, guarded);
            assert(all[it.index() as int] == ty@);
            assert(texts(protected@).push(guarded@) =~= protect_all_spec(all.take(it.index() + 1)));
        }
        protected.push(guarded);
    }
    proof {
        assert(all.take(all.len() as int) =~= all);
    }
    protected
}

/// The mock declaration of the member function at `method`.
pub fn format_mock_method_definition(ast: &Ast, method: usize) -> (definition: Option<String>)
    requires
        ast.wf(),
        method < ast@.len(),
    ensures
        text_of(definition) == mock_method_spec(ast@, method as int),
{
    let entity = &ast.node(method).entity;
    let result_type = match &entity.result_type {
        Some(result_type) => result_type,
        None => {
            return None;
        },
    };
    let name = match &entity.name {
        Some(name) => name,
        None => {
            return None;
        },
    };
    let types = match get_method_parameter_type_list(ast, method) {
        Some(types) => types,
        None => {
            return None;
        },
    };
    let parameters = join(&protect_all(types), ", ");
    let attributes = concat_all(&interspersed(get_method_attributes(entity), String::from_str(", ")));
    proof {
        lemma_interspersed_parts_join(attributes_spec(*entity), ", "@);
    }
    let mut definition = String::from_str("MOCK_METHOD(");
    definition.append(protect_commas(String::from_str(result_type.as_str())).as_str());
    definition.append(", ");
    definition.append(name.as_str());
    definition.append(", (");
    definition.append(parameters.as_str());
    definition.append("), (");
    definition.append(attributes.as_str());
    definition.append("));");
    Some(definition)
}

/// The display name of each of `entities`, where it has one.
pub open spec fn display_names(nodes: Seq<AstNode>, entities: Seq<usize>) -> Seq<Option<Seq<char>>> {
    entities.map_values(|index: usize| text_of(nodes[index as int].entity.display_name))
}

/// The name of the entity at `entity` with its scopes: the display names of
/// the scopes that enclose it, the outermost but one first, and its own, with
/// `::` between them; or `None` if one of them has no display name.
pub open spec fn qualified_name_spec(nodes: Seq<AstNode>, entity: nat) -> Option<Seq<char>> {
    match all_or_none(display_names(nodes, semantic_chain(nodes, entity))) {
        Some(names) => Some(join_spec(names.reverse(), "::"@)),
        None => None,
    }
}

/// The name of the entity at `entity` with its scopes.
pub fn get_qualified_name(ast: &Ast, entity: usize) -> (name: Option<String>)
    requires
        ast.wf(),
        entity < ast@.len(),
    ensures
        text_of(name) == qualified_name_spec(ast@, entity as nat),
{
    let chain = semantic_parents(ast, entity);
    let ghost given = display_names(ast@, chain@);
    let mut names: Vec<String> = Vec::new();
    let mut at: usize = 0;
    proof {
        assert(texts(names@) =~= Seq::empty());
    }
    while at < chain.len()
        invariant
            ast.wf(),
            given == display_names(ast@, chain@),
            chain@ == semantic_chain(ast@, entity as nat),
            forall|j: int| 0 <= j < chain@.len() ==> (#[trigger] chain@[j]) < ast@.len(),
            at <= chain@.len(),
            all_or_none(given.take(at as int)) == Some(texts(names@)),
        decreases chain@.len() - at,
    {
        proof {
            let upto = given.take(at + 1);
            assert(upto.drop_last() =~= given.take(at as int));
            assert(upto.last() == text_of(ast@[chain@[at as int] as int].entity.display_name));
        }
        match &ast.node(chain[at]).entity.display_name {
            Some(display_name) => {
                let copy = String::from_str(display_name.as_str());
                proof {
                    lemma_texts_push(names@, copy);
                }
                names.push(copy);
            },
            None => {
                proof {
                    assert(all_or_none(given.take(at + 1)) is None);
                    lemma_all_or_none_missing(given, at + 1);
                }
                return None;
            },
        }
        at += 1;
    }
    proof {
        assert(given.take(at as int) =~= given);
        assert(texts(names@.reverse()) =~= texts(names@).reverse());
        lemma_interspersed_parts_join(texts(names@).reverse(), "::"@);
    }
    Some(concat_all(&interspersed(reversed(names), String::from_str("::"))))
}

/// The mock declaration of each of `methods`, where it has one.
pub open spec fn mock_methods_spec(nodes: Seq<AstNode>, methods: Seq<usize>) -> Seq<Option<Seq<char>>> {
    methods.map_values(|index: usize| mock_method_spec(nodes, index as int))
}

/// The definition of the mock class `mock_class_name` for the interface at
/// `class`: `struct <mock> : <interface with its scopes> {`, a mock
/// declaration for each pure virtual member function that the interface
/// inherits or declares, each on a line of its own, and `};`. It is `None`
/// if the interface or one of its scopes has no display name, or one of the
/// member functions has no mock declaration.
pub open spec fn mock_definition_spec(nodes: Seq<AstNode>, class: nat, mock_class_name: Seq<char>) -> Option<
    Seq<char>,
> {
    match (
        all_or_none(mock_methods_spec(nodes, abstract_methods(nodes, class))),
        qualified_name_spec(nodes, class),
    ) {
        (Some(methods), Some(interface)) => Some(
            "struct "@ + mock_class_name + " : "@ + interface + " {\n\t"@ + join_spec(
                methods,
                "\n\t"@,
            ) + "\n};"@,
        ),
        _ => None,
    }
}

/// The definition of the mock class `mock_class_name` for the interface at
/// `interface_class`.
pub fn generate_mock_definition(ast: &Ast, interface_class: usize, mock_class_name: &str) -> (definition:
    Option<String>)
    requires
        ast.wf(),
        interface_class < ast@.len(),
    ensures
        text_of(definition) == mock_definition_spec(
            ast@,
            interface_class as nat,
            mock_class_name@,
        ),
{
    let methods = get_abstract_methods(ast, interface_class);
    let ghost given = mock_methods_spec(ast@, methods@);
    let mut mock_methods: Vec<String> = Vec::new();
    let mut at: usize = 0;
    proof {
        assert(texts(mock_methods@) =~= Seq::empty());
    }
    while at < methods.len()
        invariant
            ast.wf(),
            given == mock_methods_spec(ast@, methods@),
            methods@ == abstract_methods(ast@, interface_class as nat),
            forall|j: int| 0 <= j < methods@.len() ==> (#[trigger] methods@[j]) < ast@.len(),
            at <= methods@.len(),
            all_or_none(given.take(at as int)) == Some(texts(mock_methods@)),
        decreases methods@.len() - at,
    {
        proof {
            let upto = given.take(at + 1);
            assert(upto.drop_last() =~= given.take(at as int));
            assert(upto.last() == mock_method_spec(ast@, methods@[at as int] as int));
        }
        match format_mock_method_definition(ast, methods[at]) {
            Some(mock_method) => {
                proof {
                    lemma_texts_push(mock_methods@, mock_method);
                }
                mock_methods.push(mock_method);
            },
            None => {
                proof {
                    assert(all_or_none(given.take(at + 1)) is None);
                    lemma_all_or_none_missing(given, at + 1);
                }
                return None;
            },
        }
        at += 1;
    }
    proof {
        assert(given.take(at as int) =~= given);
    }
    let interface = match get_qualified_name(ast, interface_class) {
        Some(interface) => interface,
        None => {
            return None;
        },
    };
    let mut definition = String::from_str("struct ");
    definition.append(mock_class_name);
    definition.append(" : ");
    definition.append(interface.as_str());
    definition.append(" {\n\t");
    definition.append(join(&mock_methods, "\n\t").as_str());
    definition.append("\n};");
    Some(definition)
}

} // verus!
