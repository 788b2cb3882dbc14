//! Laws of the parameters of a declaration.
use crate::definitions::{
    local_at_from, mutability_of, parameter_locals_from, parameters_of, starts_with_mutate,
};
use crate::facts::{FileFacts, LocalAt};
use crate::ids::LocalRef;
use crate::path::{all_blank, is_blank};
use crate::syntax::{named, part, text_of, SyntaxNode};
use vstd::prelude::*;

verus! {

/// The local that is known at an offset, where the offset is known once.
proof fn lemma_local_at(list: Seq<LocalAt>, offset: u32, i: int, k: int)
    requires
        0 <= i <= k < list.len(),
        list[k].offset == offset,
        forall|j: int| 0 <= j < list.len() && (#[trigger] list[j]).offset == offset ==> j == k,
    ensures
        local_at_from(list, offset, i) == Some(list[k].local),
    decreases k - i,
{
    if i < k {
        assert(list[i].offset != offset);
        lemma_local_at(list, offset, i + 1, k);
    }
}

/// The name of a parameter is known as a local.
pub open spec fn names_local(file: FileFacts, parameter: SyntaxNode, local: LocalRef) -> bool {
    part(parameter, "name"@) matches Some(name) && exists|k: int|
        0 <= k < file.locals_at@.len() && (#[trigger] file.locals_at@[k]).offset == name.start
            && file.locals_at@[k].local == local && forall|j: int|
            0 <= j < file.locals_at@.len() && (#[trigger] file.locals_at@[j]).offset == name.start
                ==> j == k
}

proof fn lemma_parameters(
    file: FileFacts,
    parameters: Seq<SyntaxNode>,
    locals: Seq<LocalRef>,
    i: int,
)
    requires
        0 <= i <= parameters.len(),
        locals.len() == parameters.len(),
        forall|k: int|
            0 <= k < parameters.len() ==> names_local(
                file,
                #[trigger] parameters[k],
                locals[k],
            ),
    ensures
        parameter_locals_from(file, parameters, i, locals.take(i)) == locals,
    decreases parameters.len() - i,
{
    if i < parameters.len() {
        assert(names_local(file, parameters[i], locals[i]));
        let name = part(parameters[i], "name"@)->Some_0;
        let k = choose|k: int|
            0 <= k < file.locals_at@.len() && (#[trigger] file.locals_at@[k]).offset == name.start
                && file.locals_at@[k].local == locals[i] && forall|j: int|
                0 <= j < file.locals_at@.len() && (#[trigger] file.locals_at@[j]).offset
                    == name.start ==> j == k;
        lemma_local_at(file.locals_at@, name.start, 0, k);
        assert(locals.take(i).push(locals[i]) =~= locals.take(i + 1));
        lemma_parameters(file, parameters, locals, i + 1);
    } else {
        assert(locals.take(i) =~= locals);
    }
}

/// The parameters of a declaration are the locals at their names, in order.
pub proof fn parameters_are_in_order(
    file: FileFacts,
    declaration: SyntaxNode,
    list: SyntaxNode,
    locals: Seq<LocalRef>,
)
    requires
        file.resolved is Some,
        part(declaration, "parameters"@) == Some(list),
        locals.len() == named(list).len(),
        forall|k: int|
            0 <= k < named(list).len() ==> names_local(
                file,
                #[trigger] named(list)[k],
                locals[k],
            ),
    ensures
        parameters_of(file, declaration) == locals,
{
    assert(locals.take(0) =~= Seq::empty());
    lemma_parameters(file, named(list), locals, 0);
}

proof fn lemma_starts_with_mutate(blanks: Seq<char>, rest: Seq<char>)
    requires
        all_blank(blanks),
    ensures
        starts_with_mutate(blanks + "mutate "@ + rest),
        rest.len() > 0 && rest[0] != 'm' && !is_blank(rest[0]) ==> !starts_with_mutate(rest),
{
    reveal_strlit("mutate ");
    let text = blanks + "mutate "@ + rest;
    let k = blanks.len() as int;
    assert(text.take(k) =~= blanks);
    assert(text.subrange(k, k + 7) =~= "mutate "@);
    if starts_with_mutate(rest) && rest.len() > 0 {
        let j = choose|j: int|
            0 <= j && j + 7 <= rest.len() && all_blank(rest.take(j)) && #[trigger] rest.subrange(
                j,
                j + 7,
            ) == "mutate "@;
        if j == 0 {
            assert(rest.subrange(0, 7)[0] == rest[0]);
        } else {
            assert(rest.take(j)[0] == rest[0]);
        }
    }
}

/// A parameter whose text starts, behind blanks, with the word for it is mutated, and one whose
/// text starts with another letter, or that has no text, is not.
pub proof fn mutated_parameters_say_so(
    file: FileFacts,
    declaration: SyntaxNode,
    list: SyntaxNode,
    k: int,
    blanks: Seq<char>,
    rest: Seq<char>,
)
    requires
        all_blank(blanks),
        part(declaration, "parameters"@) == Some(list),
        0 <= k < named(list).len(),
    ensures
        mutability_of(file, declaration).len() == named(list).len(),
        text_of(file.text.source@, named(list)[k]) == Some(blanks + "mutate "@ + rest)
            ==> mutability_of(file, declaration)[k],
        text_of(file.text.source@, named(list)[k]) == Some(rest) && rest.len() > 0 && rest[0]
            != 'm' && !is_blank(rest[0]) ==> !mutability_of(file, declaration)[k],
        text_of(file.text.source@, named(list)[k]) is None ==> !mutability_of(
            file,
            declaration,
        )[k],
{
    lemma_starts_with_mutate(blanks, rest);
}

} // verus!
