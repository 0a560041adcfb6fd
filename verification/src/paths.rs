//! How paths lead through groups.

use vstd::prelude::*;
use crate::error::ErrorModel;
use crate::group_v1::{self, GroupEntryModel};
use crate::group_v2;
use crate::object_header::HeaderMessageModel;
use crate::superblock::Superblock;
use crate::symbol_table::SymbolTableMessage;
use crate::text;

verus! {

// ---- The parts of a path ----

/// The path that first follows `a`, and then `b`.
pub open spec fn slashed(a: Seq<char>, b: Seq<char>) -> Seq<char> {
    a + (seq!['/'] + b)
}

/// Whether a text can be the name of one object in a path.
pub open spec fn is_step(name: Seq<char>) -> bool {
    name.len() > 0 && !name.contains('/')
}

proof fn lemma_done(path: Seq<char>, from: int, i: int, done: Seq<Seq<char>>)
    requires
        0 <= from <= i,
    ensures
        text::parts_from(path, from, i, done) == done + text::parts_from(
            path,
            from,
            i,
            Seq::empty(),
        ),
    decreases path.len() - i,
{
    let none = Seq::<Seq<char>>::empty();
    if i >= path.len() {
        assert(text::with_part(path, from, i, done) =~= done + text::with_part(
            path,
            from,
            i,
            none,
        ));
    } else if path[i] == '/' {
        let more = text::with_part(path, from, i, done);
        let first = text::with_part(path, from, i, none);
        lemma_done(path, i + 1, i + 1, more);
        lemma_done(path, i + 1, i + 1, first);
        assert(more =~= done + first);
        let rest = text::parts_from(path, i + 1, i + 1, none);
        assert((done + first) + rest =~= done + (first + rest));
    } else {
        lemma_done(path, from, i + 1, done);
    }
}

proof fn lemma_shifted(before: Seq<char>, path: Seq<char>, from: int, i: int, done: Seq<Seq<char>>)
    requires
        0 <= from <= i <= path.len(),
    ensures
        text::parts_from(before + path, before.len() + from, before.len() + i, done)
            == text::parts_from(path, from, i, done),
    decreases path.len() - i,
{
    let n = before.len() as int;
    let whole = before + path;
    if from < i {
        assert(whole.subrange(n + from, n + i) =~= path.subrange(from, i));
    }
    assert(text::with_part(whole, n + from, n + i, done) == text::with_part(path, from, i, done));
    if i < path.len() {
        assert(whole[n + i] == path[i]);
        if path[i] == '/' {
            lemma_shifted(before, path, i + 1, i + 1, text::with_part(path, from, i, done));
        } else {
            lemma_shifted(before, path, from, i + 1, done);
        }
    }
}

proof fn lemma_front(a: Seq<char>, b: Seq<char>, from: int, i: int, done: Seq<Seq<char>>)
    requires
        0 <= from <= i <= a.len(),
    ensures
        text::parts_from(slashed(a, b), from, i, done) == text::parts_from(a, from, i, done)
            + text::parts(b),
    decreases a.len() - i,
{
    let whole = slashed(a, b);
    if from < i {
        assert(whole.subrange(from, i) =~= a.subrange(from, i));
    }
    let more = text::with_part(a, from, i, done);
    assert(text::with_part(whole, from, i, done) == more);
    if i < a.len() {
        assert(whole[i] == a[i]);
        if a[i] == '/' {
            lemma_front(a, b, i + 1, i + 1, more);
        } else {
            lemma_front(a, b, from, i + 1, done);
        }
    } else {
        assert(whole[i] == '/');
        let before = a + seq!['/'];
        assert(whole =~= before + b);
        lemma_shifted(before, b, 0, 0, more);
        lemma_done(b, 0, 0, more);
    }
}

/// The parts of a path are those of its front, and then those of its end.
#[verifier::rlimit(30)]
pub proof fn law_parts_of_joined_paths(a: Seq<char>, b: Seq<char>)
    ensures
        text::parts(slashed(a, b)) == text::parts(a) + text::parts(b),
{
    lemma_front(a, b, 0, 0, Seq::empty());
}

proof fn lemma_step(name: Seq<char>, i: int)
    requires
        is_step(name),
        0 <= i <= name.len(),
    ensures
        text::parts_from(name, 0, i, Seq::empty()) == seq![name],
    decreases name.len() - i,
{
    if i < name.len() {
        assert(name.contains(name[i]));
        lemma_step(name, i + 1);
    } else {
        assert(name.subrange(0, i) =~= name);
        assert(text::with_part(name, 0, i, Seq::empty()) =~= seq![name]);
    }
}

/// A name is its own only part, and the empty path has none.
#[verifier::rlimit(30)]
pub proof fn law_name_is_its_only_part(name: Seq<char>)
    requires
        is_step(name),
    ensures
        text::parts(name) == seq![name],
        text::parts(Seq::empty()) == Seq::<Seq<char>>::empty(),
{
    lemma_step(name, 0);
}

// ---- Entries ----

proof fn lemma_entry_found(entries: Seq<GroupEntryModel>, name: Seq<char>, from: int, i: int)
    requires
        0 <= from <= i < entries.len(),
        entries[i].name == name,
        forall|k: int| from <= k < i ==> (#[trigger] entries[k]).name != name,
    ensures
        group_v1::entry_named(entries, name, from) == Some(entries[i]),
    decreases i - from,
{
    if from < i {
        assert(entries[from].name != name);
        lemma_entry_found(entries, name, from + 1, i);
    }
}

proof fn lemma_entry_missing(entries: Seq<GroupEntryModel>, name: Seq<char>, from: int)
    requires
        0 <= from,
        forall|k: int| from <= k < entries.len() ==> (#[trigger] entries[k]).name != name,
    ensures
        group_v1::entry_named(entries, name, from) is None,
    decreases entries.len() - from,
{
    if from < entries.len() {
        assert(entries[from].name != name);
        lemma_entry_missing(entries, name, from + 1);
    }
}

// ---- Steps ----

/// Where names lead: each names a child, which is entered if another name follows.
spec fn tour<S>(
    child: spec_fn(S, Seq<char>) -> Result<u64, ErrorModel>,
    enter: spec_fn(u64) -> Result<S, ErrorModel>,
    s: S,
    names: Seq<Seq<char>>,
    k: int,
) -> Result<u64, ErrorModel>
    decreases names.len() - k,
{
    match child(s, names[k]) {
        Err(e) => Err(e),
        Ok(address) => if k >= names.len() - 1 {
            Ok(address)
        } else {
            match enter(address) {
                Err(e) => Err(e),
                Ok(next) => tour(child, enter, next, names, k + 1),
            }
        },
    }
}

proof fn lemma_tour_shifted<S>(
    child: spec_fn(S, Seq<char>) -> Result<u64, ErrorModel>,
    enter: spec_fn(u64) -> Result<S, ErrorModel>,
    s: S,
    before: Seq<Seq<char>>,
    names: Seq<Seq<char>>,
    k: int,
)
    requires
        0 <= k < names.len(),
    ensures
        tour(child, enter, s, before + names, before.len() + k) == tour(child, enter, s, names, k),
    decreases names.len() - k,
{
    assert((before + names)[before.len() + k] == names[k]);
    if k < names.len() - 1 {
        if let Ok(address) = child(s, names[k]) {
            if let Ok(next) = enter(address) {
                lemma_tour_shifted(child, enter, next, before, names, k + 1);
            }
        }
    }
}

/// Where names lead that follow others.
proof fn lemma_tour_joined<S>(
    child: spec_fn(S, Seq<char>) -> Result<u64, ErrorModel>,
    enter: spec_fn(u64) -> Result<S, ErrorModel>,
    s: S,
    front: Seq<Seq<char>>,
    names: Seq<Seq<char>>,
    k: int,
)
    requires
        0 <= k < front.len(),
        names.len() > 0,
    ensures
        tour(child, enter, s, front + names, k) == match tour(child, enter, s, front, k) {
            Err(e) => Err::<u64, ErrorModel>(e),
            Ok(address) => match enter(address) {
                Err(e) => Err(e),
                Ok(next) => tour(child, enter, next, names, 0),
            },
        },
    decreases front.len() - k,
{
    assert((front + names)[k] == front[k]);
    if let Ok(address) = child(s, front[k]) {
        if let Ok(next) = enter(address) {
            if k < front.len() - 1 {
                lemma_tour_joined(child, enter, next, front, names, k + 1);
            } else {
                lemma_tour_shifted(child, enter, next, front, names, 0);
            }
        }
    }
}

// ---- Groups with a symbol table ----

/// Where `b` leads from the object at the given address, if it has a symbol table.
pub open spec fn from_object(d: Seq<u8>, address: u64, b: Seq<char>, os: u8, ls: u8) -> Result<
    u64,
    ErrorModel,
> {
    match crate::object_header::header_at(d, (address as usize) as int, os, ls) {
        Err(e) => Err(e),
        Ok(header) => match group_v1::table_in(header.messages, os) {
            Err(e) => Err(e),
            Ok(table) => group_v1::path_target(d, table, b, os, ls),
        },
    }
}

/// The address of the child with the given name.
#[verifier::opaque]
spec fn child_of_table(
    d: Seq<u8>,
    table: SymbolTableMessage,
    name: Seq<char>,
    os: u8,
    ls: u8,
) -> Result<u64, ErrorModel> {
    match group_v1::group_entries(d, table, os, ls) {
        Err(e) => Err(e),
        Ok(entries) => match group_v1::entry_named(entries, name, 0) {
            None => Err(ErrorModel::PathNotFound(name)),
            Some(entry) => Ok(entry.object_header_address),
        },
    }
}

/// The symbol table of the object at an address.
#[verifier::opaque]
spec fn table_at(d: Seq<u8>, address: u64, os: u8, ls: u8) -> Result<SymbolTableMessage, ErrorModel> {
    match crate::object_header::header_at(d, (address as usize) as int, os, ls) {
        Err(e) => Err(e),
        Ok(header) => group_v1::table_in(header.messages, os),
    }
}

spec fn tour_of_tables(
    d: Seq<u8>,
    table: SymbolTableMessage,
    names: Seq<Seq<char>>,
    k: int,
    os: u8,
    ls: u8,
) -> Result<u64, ErrorModel> {
    tour(
        |t: SymbolTableMessage, name: Seq<char>| child_of_table(d, t, name, os, ls),
        |address: u64| table_at(d, address, os, ls),
        table,
        names,
        k,
    )
}

#[verifier::spinoff_prover]
#[verifier::rlimit(60)]
proof fn lemma_walk_is_tour(
    d: Seq<u8>,
    table: SymbolTableMessage,
    names: Seq<Seq<char>>,
    k: int,
    os: u8,
    ls: u8,
)
    requires
        0 <= k < names.len(),
    ensures
        group_v1::walk(d, table, names, k, os, ls) == tour_of_tables(d, table, names, k, os, ls),
    decreases names.len() - k,
{
    reveal(child_of_table);
    reveal(table_at);
    if k < names.len() - 1 {
        if let Ok(address) = child_of_table(d, table, names[k], os, ls) {
            if let Ok(next) = table_at(d, address, os, ls) {
                lemma_walk_is_tour(d, next, names, k + 1, os, ls);
            }
        }
    }
}

/// Paths compose: `a/b` leads where `b` leads from the group that `a` leads to. Where `a` leads
/// nowhere, `a/b` does not either, for the same reason.
#[verifier::rlimit(30)]
pub proof fn law_paths_compose(
    d: Seq<u8>,
    root: SymbolTableMessage,
    a: Seq<char>,
    b: Seq<char>,
    os: u8,
    ls: u8,
)
    requires
        text::parts(a).len() > 0,
        text::parts(b).len() > 0,
    ensures
        group_v1::path_target(d, root, slashed(a, b), os, ls) == match group_v1::path_target(
            d,
            root,
            a,
            os,
            ls,
        ) {
            Err(e) => Err::<u64, ErrorModel>(e),
            Ok(address) => from_object(d, address, b, os, ls),
        },
{
    law_parts_of_joined_paths(a, b);
    let front = text::parts(a);
    let names = text::parts(b);
    lemma_walk_is_tour(d, root, front + names, 0, os, ls);
    lemma_walk_is_tour(d, root, front, 0, os, ls);
    lemma_tour_joined(
        |t: SymbolTableMessage, name: Seq<char>| child_of_table(d, t, name, os, ls),
        |address: u64| table_at(d, address, os, ls),
        root,
        front,
        names,
        0,
    );
    if let Ok(address) = group_v1::path_target(d, root, a, os, ls) {
        reveal(table_at);
        if let Ok(next) = table_at(d, address, os, ls) {
            lemma_walk_is_tour(d, next, names, 0, os, ls);
        }
    }
}

/// A path of one name leads to the first entry with that name, and nowhere if there is none.
#[verifier::rlimit(30)]
pub proof fn law_name_leads_to_its_entry(
    d: Seq<u8>,
    table: SymbolTableMessage,
    entries: Seq<GroupEntryModel>,
    name: Seq<char>,
    os: u8,
    ls: u8,
)
    requires
        is_step(name),
        group_v1::group_entries(d, table, os, ls) == Ok::<Seq<GroupEntryModel>, ErrorModel>(
            entries,
        ),
    ensures
        forall|i: int|
            0 <= i < entries.len() && (#[trigger] entries[i]).name == name && (forall|k: int|
                0 <= k < i ==> (#[trigger] entries[k]).name != name)
                ==> group_v1::path_target(d, table, name, os, ls) == Ok::<u64, ErrorModel>(
                entries[i].object_header_address,
            ),
        (forall|k: int| 0 <= k < entries.len() ==> (#[trigger] entries[k]).name != name)
            ==> group_v1::path_target(d, table, name, os, ls) == Err::<u64, ErrorModel>(
            ErrorModel::PathNotFound(name),
        ),
{
    law_name_is_its_only_part(name);
    assert forall|i: int|
        0 <= i < entries.len() && (#[trigger] entries[i]).name == name && (forall|k: int|
            0 <= k < i ==> (#[trigger] entries[k]).name
                != name) implies group_v1::path_target(d, table, name, os, ls) == Ok::<
        u64,
        ErrorModel,
    >(entries[i].object_header_address) by {
        lemma_entry_found(entries, name, 0, i);
    }
    if forall|k: int| 0 <= k < entries.len() ==> (#[trigger] entries[k]).name != name {
        lemma_entry_missing(entries, name, 0);
    }
}

/// A path of two names leads to the entry with the second name among the entries of the group that
/// the first name stands for.
#[verifier::rlimit(30)]
pub proof fn law_two_names_lead_to_an_entry_of_the_second_group(
    d: Seq<u8>,
    root: SymbolTableMessage,
    entries: Seq<GroupEntryModel>,
    i: int,
    messages: Seq<HeaderMessageModel>,
    table: SymbolTableMessage,
    children: Seq<GroupEntryModel>,
    j: int,
    os: u8,
    ls: u8,
)
    requires
        group_v1::group_entries(d, root, os, ls) == Ok::<Seq<GroupEntryModel>, ErrorModel>(
            entries,
        ),
        0 <= i < entries.len(),
        is_step(entries[i].name),
        forall|k: int| 0 <= k < i ==> (#[trigger] entries[k]).name != entries[i].name,
        crate::object_header::header_at(
            d,
            (entries[i].object_header_address as usize) as int,
            os,
            ls,
        ) matches Ok(header) && header.messages == messages,
        group_v1::table_in(messages, os) == Ok::<SymbolTableMessage, ErrorModel>(table),
        group_v1::group_entries(d, table, os, ls) == Ok::<Seq<GroupEntryModel>, ErrorModel>(
            children,
        ),
        0 <= j < children.len(),
        is_step(children[j].name),
        forall|k: int| 0 <= k < j ==> (#[trigger] children[k]).name != children[j].name,
    ensures
        group_v1::path_target(d, root, slashed(entries[i].name, children[j].name), os, ls)
            == Ok::<u64, ErrorModel>(children[j].object_header_address),
{
    law_name_leads_to_its_entry(d, root, entries, entries[i].name, os, ls);
    law_name_leads_to_its_entry(d, table, children, children[j].name, os, ls);
    law_name_is_its_only_part(entries[i].name);
    law_name_is_its_only_part(children[j].name);
    law_paths_compose(d, root, entries[i].name, children[j].name, os, ls);
}

// ---- Groups of any kind ----

/// The address of the child with the given name.
#[verifier::opaque]
spec fn child_of_messages(
    d: Seq<u8>,
    ms: Seq<HeaderMessageModel>,
    name: Seq<char>,
    os: u8,
    ls: u8,
) -> Result<u64, ErrorModel> {
    match group_v2::any_entries(d, ms, os, ls) {
        Err(e) => Err(e),
        Ok(entries) => match group_v1::entry_named(entries, name, 0) {
            None => Err(ErrorModel::PathNotFound(name)),
            Some(entry) => Ok(entry.object_header_address),
        },
    }
}

/// The messages of the object at an address.
#[verifier::opaque]
spec fn messages_at(d: Seq<u8>, address: u64, os: u8, ls: u8) -> Result<
    Seq<HeaderMessageModel>,
    ErrorModel,
> {
    match crate::object_header::header_at(d, (address as usize) as int, os, ls) {
        Err(e) => Err(e),
        Ok(header) => Ok(header.messages),
    }
}

spec fn tour_of_groups(
    d: Seq<u8>,
    ms: Seq<HeaderMessageModel>,
    names: Seq<Seq<char>>,
    k: int,
    os: u8,
    ls: u8,
) -> Result<u64, ErrorModel> {
    tour(
        |t: Seq<HeaderMessageModel>, name: Seq<char>| child_of_messages(d, t, name, os, ls),
        |address: u64| messages_at(d, address, os, ls),
        ms,
        names,
        k,
    )
}

#[verifier::spinoff_prover]
#[verifier::rlimit(60)]
proof fn lemma_any_walk_is_tour(
    d: Seq<u8>,
    ms: Seq<HeaderMessageModel>,
    names: Seq<Seq<char>>,
    k: int,
    os: u8,
    ls: u8,
)
    requires
        0 <= k < names.len(),
    ensures
        group_v2::walk(d, ms, names, k, os, ls) == tour_of_groups(d, ms, names, k, os, ls),
    decreases names.len() - k,
{
    reveal(child_of_messages);
    reveal(messages_at);
    if k < names.len() - 1 {
        if let Ok(address) = child_of_messages(d, ms, names[k], os, ls) {
            if let Ok(next) = messages_at(d, address, os, ls) {
                lemma_any_walk_is_tour(d, next, names, k + 1, os, ls);
            }
        }
    }
}

/// The same file seen from another group.
pub open spec fn rooted_at(sb: Superblock, address: u64) -> Superblock {
    Superblock { root_group_address: address, ..sb }
}

/// Paths compose, whatever kind of group they lead through: `a/b` leads where `b` leads in the file
/// whose root is what `a` leads to.
#[verifier::rlimit(30)]
pub proof fn law_paths_through_any_group_compose(
    d: Seq<u8>,
    sb: Superblock,
    a: Seq<char>,
    b: Seq<char>,
)
    ensures
        group_v2::path_target(d, sb, slashed(a, b)) == match group_v2::path_target(d, sb, a) {
            Err(e) => Err::<u64, ErrorModel>(e),
            Ok(address) => group_v2::path_target(d, rooted_at(sb, address), b),
        },
{
    law_parts_of_joined_paths(a, b);
    let front = text::parts(a);
    let names = text::parts(b);
    if front.len() == 0 {
        assert(front + names =~= names);
    } else if names.len() == 0 {
        assert(front + names =~= front);
    } else {
        reveal(messages_at);
        let os = sb.offset_size;
        let ls = sb.length_size;
        if let Ok(ms) = messages_at(d, sb.root_group_address, os, ls) {
            lemma_any_walk_is_tour(d, ms, front + names, 0, os, ls);
            lemma_any_walk_is_tour(d, ms, front, 0, os, ls);
            lemma_tour_joined(
                |t: Seq<HeaderMessageModel>, name: Seq<char>|
                    child_of_messages(d, t, name, os, ls),
                |address: u64| messages_at(d, address, os, ls),
                ms,
                front,
                names,
                0,
            );
            if let Ok(address) = group_v2::path_target(d, sb, a) {
                if let Ok(next) = messages_at(d, address, os, ls) {
                    lemma_any_walk_is_tour(d, next, names, 0, os, ls);
                }
            }
        }
    }
}

/// The empty path leads to the root group, and a path of one name to the first entry of the root
/// group with that name, or nowhere if there is none.
#[verifier::rlimit(30)]
pub proof fn law_name_leads_to_its_entry_in_any_group(
    d: Seq<u8>,
    sb: Superblock,
    messages: Seq<HeaderMessageModel>,
    entries: Seq<GroupEntryModel>,
    name: Seq<char>,
)
    requires
        is_step(name),
        crate::object_header::header_at(
            d,
            (sb.root_group_address as usize) as int,
            sb.offset_size,
            sb.length_size,
        ) matches Ok(header) && header.messages == messages,
        group_v2::any_entries(d, messages, sb.offset_size, sb.length_size) == Ok::<
            Seq<GroupEntryModel>,
            ErrorModel,
        >(entries),
    ensures
        group_v2::path_target(d, sb, Seq::empty()) == Ok::<u64, ErrorModel>(
            sb.root_group_address,
        ),
        forall|i: int|
            0 <= i < entries.len() && (#[trigger] entries[i]).name == name && (forall|k: int|
                0 <= k < i ==> (#[trigger] entries[k]).name != name)
                ==> group_v2::path_target(d, sb, name) == Ok::<u64, ErrorModel>(
                entries[i].object_header_address,
            ),
        (forall|k: int| 0 <= k < entries.len() ==> (#[trigger] entries[k]).name != name)
            ==> group_v2::path_target(d, sb, name) == Err::<u64, ErrorModel>(
            ErrorModel::PathNotFound(name),
        ),
{
    law_name_is_its_only_part(name);
    assert forall|i: int|
        0 <= i < entries.len() && (#[trigger] entries[i]).name == name && (forall|k: int|
            0 <= k < i ==> (#[trigger] entries[k]).name
                != name) implies group_v2::path_target(d, sb, name) == Ok::<u64, ErrorModel>(
        entries[i].object_header_address,
    ) by {
        lemma_entry_found(entries, name, 0, i);
    }
    if forall|k: int| 0 <= k < entries.len() ==> (#[trigger] entries[k]).name != name {
        lemma_entry_missing(entries, name, 0);
    }
}

} // verus!
