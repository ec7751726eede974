//! What the subcommands decide, between reading their input and writing
//! their output.

use crate::ast::Ast;
use crate::ast_iterators::{dump_ast_to_string, dump_spec};
use crate::cli::{CreateOpts, MockeryOpts, SubCommand, UpdateOpts};
use crate::error::{CLIError, CLIResult};
use crate::mock_generation::{
    find_class_entity, generate_mock_definition, is_located, mock_definition_spec,
};
use crate::text::{lemma_texts_push, text_of, texts};
use vstd::prelude::*;
use vstd::string::StringExecFns;

verus! {

/// The path of the translation unit that the subcommand works on.
pub open spec fn source_file_spec(opts: MockeryOpts) -> Seq<char> {
    match opts.subcmd {
        SubCommand::Create(crt) => crt.interface_source@,
        SubCommand::Update(upd) => upd.mock_source@,
        SubCommand::Dump(dmp) => dmp.source@,
    }
}

/// The path of the translation unit that the subcommand works on.
pub fn source_file(opts: &MockeryOpts) -> (path: &str)
    ensures
        path@ == source_file_spec(*opts),
{
    match &opts.subcmd {
        SubCommand::Create(crt) => crt.interface_source.as_str(),
        SubCommand::Update(upd) => upd.mock_source.as_str(),
        SubCommand::Dump(dmp) => dmp.source.as_str(),
    }
}

/// Whether two paths are the same path, as `std::path::Path` compares them.
pub uninterp spec fn same_path(left: Seq<char>, right: Seq<char>) -> bool;

/// `==` on `std::path::Path`.
#[verifier::external_body]
fn paths_are_same(left: &str, right: &str) -> (same: bool)
    ensures
        same == same_path(left@, right@),
{
    std::path::Path::new(left) == std::path::Path::new(right)
}

/// The name of the file at `path` without its extension, as
/// `std::path::Path::file_stem` tells it.
pub uninterp spec fn file_stem(path: Seq<char>) -> Option<Seq<char>>;

/// `std::path::Path::file_stem`.
#[verifier::external_body]
fn file_stem_of(path: &str) -> (stem: Option<String>)
    ensures
        text_of(stem) == file_stem(path@),
{
    match std::path::Path::new(path).file_stem() {
        Some(stem) => Some(stem.to_string_lossy().into_owned()),
        None => None,
    }
}

/// Whether `argument` is one of the flags that tell a compiler which
/// language a source file is in.
pub open spec fn is_source_flag(argument: Seq<char>) -> bool {
    argument == "/Tc"@ || argument == "/TC"@ || argument == "/Tp"@ || argument == "/TP"@
}

/// Whether `argument` of a compile command is handed on to the parser, which
/// is given the file `filename` by itself.
pub open spec fn is_handed_on(filename: Seq<char>) -> spec_fn(Seq<char>) -> bool {
    |argument: Seq<char>| !same_path(argument, filename) && !is_source_flag(argument)
}

/// Whether `argument` of a compile command is handed on to the parser, given
/// whether it names the source file.
pub fn is_compile_argument_kept(argument: &String, names_source_file: bool) -> (kept: bool)
    ensures
        kept == (!names_source_file && !is_source_flag(argument@)),
{
    let flag_c = String::from_str("/Tc");
    let flag_c_upper = String::from_str("/TC");
    let flag_p = String::from_str("/Tp");
    let flag_p_upper = String::from_str("/TP");
    !names_source_file && !(*argument == flag_c || *argument == flag_c_upper || *argument == flag_p
        || *argument == flag_p_upper)
}

/// The arguments of a compile command that are handed on to the parser: all
/// but the file itself and the flags that tell its language.
pub fn filter_compile_arguments(arguments: Vec<String>, filename: &str) -> (kept: Vec<String>)
    ensures
        texts(kept@) == texts(arguments@).filter(is_handed_on(filename@)),
{
    let ghost all = texts(arguments@);
    let ghost keep = is_handed_on(filename@);
    let mut kept: Vec<String> = Vec::new();
    proof {
        reveal(Seq::filter);
        assert(all.take(0).filter(keep) =~= Seq::empty());
        assert(texts(kept@) =~= Seq::empty());
    }
    for argument in it: arguments.into_iter()
        invariant
            texts(it.seq()) == all,
            keep == is_handed_on(filename@),
            texts(kept@) == all.take(it.index() as int).filter(keep),
    {
        let is_kept = is_compile_argument_kept(
            &argument,
            paths_are_same(argument.as_str(), filename),
        );
        proof {
            let upto = all.take(it.index() + 1);
            let sofar = all.take(it.index() as int);
            assert(all[it.index() as int] == argument@);
            assert(upto.drop_last() =~= sofar);
            assert(upto.last() == argument@);
            assert(keep(argument@) == is_kept);
            assert(upto.filter(keep) == if keep(argument@) {
                sofar.filter(keep).push(argument@)
            } else {
                sofar.filter(keep)
            }) by {
                reveal(Seq::filter);
            }
        }
        if is_kept {
            proof {
                lemma_texts_push(kept@, argument);
            }
            kept.push(argument);
        }
    }
    proof {
        assert(all.take(all.len() as int) =~= all);
    }
    kept
}

/// The name of the interface that `create` is to mock: the one that was
/// given, else the name of the source file without its extension.
pub open spec fn interface_name_spec(crt: CreateOpts) -> Option<Seq<char>> {
    match crt.interface {
        Some(name) => Some(name@),
        None => file_stem(crt.interface_source@),
    }
}

/// The name of the interface that `create` is to mock, or `None` if none was
/// given and the source path has no file name.
pub fn interface_name(crt: &CreateOpts) -> (name: Option<String>)
    ensures
        text_of(name) == interface_name_spec(*crt),
{
    match &crt.interface {
        Some(name) => Some(String::from_str(name.as_str())),
        None => file_stem_of(crt.interface_source.as_str()),
    }
}

/// The name of the mock class: the one that was given, else the display
/// name of the interface with `Mock` after it.
pub open spec fn mock_class_name_spec(mock: Option<String>, interface_display_name: Seq<char>) -> Seq<
    char,
> {
    match mock {
        Some(name) => name@,
        None => interface_display_name + "Mock"@,
    }
}

/// The name of the mock class for the interface that displays as
/// `interface_display_name`.
pub fn mock_class_name(mock: Option<String>, interface_display_name: &str) -> (name: String)
    ensures
        name@ == mock_class_name_spec(mock, interface_display_name@),
{
    match mock {
        Some(name) => name,
        None => String::from_str(interface_display_name).concat("Mock"),
    }
}

/// What `create` answers for the interface `interface_name`: the error that
/// no class of that name was found, where the search for one ends at
/// nothing; else the definition of the mock class for the class that the
/// search ends at, or nothing where the class lacks a display name or one of
/// its pure virtual member functions lacks a part of its declaration.
pub open spec fn is_created(
    ast: Ast,
    interface_name: Seq<char>,
    mock: Option<String>,
    created: CLIResult<Option<String>>,
) -> bool {
    match created {
        Err(error) => {
            &&& is_located(ast@, interface_name, None)
            &&& error matches CLIError::InterfaceClassNotFound(name) && name@ == interface_name
        },
        Ok(definition) => exists|class: usize|
            {
                &&& #[trigger] is_located(ast@, interface_name, Some(class))
                &&& class < ast@.len()
                &&& match ast@[class as int].entity.display_name {
                    Some(display_name) => text_of(definition) == mock_definition_spec(
                        ast@,
                        class as nat,
                        mock_class_name_spec(mock, display_name@),
                    ),
                    None => definition is None,
                }
            },
    }
}

/// Writes the definition of a mock class for the interface named
/// `interface_name`. The mock class is named `mock` if that is given, else
/// after the interface.
pub fn create(ast: &Ast, interface_name: &str, mock: Option<String>) -> (created: CLIResult<
    Option<String>,
>)
    requires
        ast.wf(),
    ensures
        is_created(*ast, interface_name@, mock, created),
{
    match find_class_entity(ast, interface_name) {
        Some(class) => {
            match &ast.node(class).entity.display_name {
                Some(display_name) => {
                    let name = mock_class_name(mock, display_name.as_str());
                    Ok(generate_mock_definition(ast, class, name.as_str()))
                },
                None => Ok(None),
            }
        },
        None => Err(CLIError::InterfaceClassNotFound(String::from_str(interface_name))),
    }
}

/// Updating a mock class is not done yet.
pub fn update(_upd: &UpdateOpts) -> (updated: CLIResult<()>)
    ensures
        updated matches Err(error) && error is NotYetImplemented,
{
    Err(CLIError::NotYetImplemented)
}

/// The entity whose subtree `dump` writes: the class named `class` if one
/// is named and found, else the root.
pub open spec fn is_dump_target(ast: Ast, class: Option<Seq<char>>, target: usize) -> bool {
    match class {
        Some(name) => is_located(ast@, name, Some(target)) || (is_located(ast@, name, None) && target
            == 0),
        None => target == 0,
    }
}

/// The entity whose subtree `dump` writes.
pub fn dump_target(ast: &Ast, class: Option<&str>) -> (target: usize)
    requires
        ast.wf(),
        ast@.len() > 0,
    ensures
        target < ast@.len(),
        is_dump_target(*ast, str_text(class), target),
{
    match class {
        Some(name) => match find_class_entity(ast, name) {
            Some(found) => found,
            None => 0,
        },
        None => 0,
    }
}

/// The text of a `str` that may be missing.
pub open spec fn str_text(text: Option<&str>) -> Option<Seq<char>> {
    match text {
        Some(t) => Some(t@),
        None => None,
    }
}

/// The dump of the class named `class`, if one is named and found, else of
/// the whole translation unit.
pub fn dump(ast: &Ast, class: Option<&str>) -> (written: String)
    requires
        ast.wf(),
        ast@.len() > 0,
    ensures
        exists|target: usize|
            #[trigger] is_dump_target(*ast, str_text(class), target) && written@ == dump_spec(
                ast@,
                target as nat,
                0,
            ),
{
    let target = dump_target(ast, class);
    dump_ast_to_string(ast, target)
}

} // verus!
