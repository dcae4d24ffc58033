//! Resolving aliases against the second corpus.
//!
//! Every alias that a file of the first corpus needs starts out with empty
//! documentation. The declarations of the second corpus are then taken in
//! the order in which they are met. One that can carry documentation, has a
//! name that is a needed alias and has a comment gives that alias its
//! documentation, unless the alias has some already: the first one wins. A
//! comment that cannot be rendered ends the run.

use crate::aliases::{lemma_place_of, AliasMap};
use crate::render::{rendered, xml_to_markdown, RenderError};
use crate::scan::DocLocations;
use vstd::prelude::*;

verus! {

/// What kind of declaration of the second corpus an entity is.
#[derive(Clone, Copy, Debug, PartialEq, Eq, Structural)]
pub enum EntityKind {
    FunctionDecl,
    StructDecl,
    TypedefDecl,
    EnumDecl,
    EnumConstantDecl,
    /// Any kind that carries no documentation.
    Other,
}

/// A declaration of the second corpus: its kind, its name, and its comment
/// as XML.
#[derive(Debug)]
pub struct Entity {
    pub kind: EntityKind,
    pub name: Option<String>,
    pub comment: Option<String>,
}

/// The documentation of each alias. Empty documentation is none.
pub type DocTable = AliasMap<Vec<u8>>;

/// The documentation of each alias of `table`, by the place of the alias.
pub open spec fn bodies(table: &DocTable) -> Seq<Seq<u8>> {
    Seq::new(table.values().len(), |i: int| table.values()[i]@)
}

/// The documentation that `alias` has among `keys` and `docs`: empty where
/// it is not among them.
pub open spec fn body_of(keys: Seq<Seq<char>>, docs: Seq<Seq<u8>>, alias: Seq<char>) -> Seq<u8> {
    if keys.contains(alias) {
        docs[keys.index_of(alias)]
    } else {
        Seq::empty()
    }
}

/// Whether a declaration of this kind can carry documentation.
pub open spec fn carries_docs(kind: EntityKind) -> bool {
    !(kind is Other)
}

/// The aliases and their documentation once each of `wanted` is among them:
/// one that was missing is added at the end, with empty documentation.
pub open spec fn required(
    keys: Seq<Seq<char>>,
    docs: Seq<Seq<u8>>,
    wanted: Seq<Seq<char>>,
) -> (Seq<Seq<char>>, Seq<Seq<u8>>)
    decreases wanted.len(),
{
    if wanted.len() == 0 {
        (keys, docs)
    } else {
        let (k, d) = required(keys, docs, wanted.drop_last());
        if k.contains(wanted.last()) {
            (k, d)
        } else {
            (k.push(wanted.last()), d.push(Seq::empty()))
        }
    }
}

/// Whether `entity` gives an alias among `keys` its documentation: it can
/// carry documentation, its name is among the aliases, it has a comment, and
/// the alias has no documentation yet.
pub open spec fn resolves(keys: Seq<Seq<char>>, docs: Seq<Seq<u8>>, entity: Entity) -> bool {
    &&& carries_docs(entity.kind)
    &&& entity.name is Some
    &&& entity.comment is Some
    &&& keys.contains(entity.name->0@)
    &&& docs[keys.index_of(entity.name->0@)].len() == 0
}

/// The documentation of each alias once `entity` is taken in; an error
/// where its comment is needed and cannot be rendered.
pub open spec fn resolved(keys: Seq<Seq<char>>, docs: Seq<Seq<u8>>, entity: Entity) -> Result<
    Seq<Seq<u8>>,
    (),
> {
    if resolves(keys, docs, entity) {
        match rendered(entity.comment->0@) {
            Some(doc) => Ok(docs.update(keys.index_of(entity.name->0@), doc)),
            None => Err(()),
        }
    } else {
        Ok(docs)
    }
}

/// The documentation of each alias once `entities` are taken in, in their
/// order; an error where one of them gives one.
pub open spec fn resolved_all(
    keys: Seq<Seq<char>>,
    docs: Seq<Seq<u8>>,
    entities: Seq<Entity>,
) -> Result<Seq<Seq<u8>>, ()>
    decreases entities.len(),
{
    if entities.len() == 0 {
        Ok(docs)
    } else {
        match resolved_all(keys, docs, entities.drop_last()) {
            Ok(d) => resolved(keys, d, entities.last()),
            Err(e) => Err(e),
        }
    }
}

/// The documentation of each alias once `entities` are taken in, in their
/// order, up to the first that gives an error.
pub open spec fn settled(
    keys: Seq<Seq<char>>,
    docs: Seq<Seq<u8>>,
    entities: Seq<Entity>,
) -> Seq<Seq<u8>>
    decreases entities.len(),
{
    if entities.len() == 0 {
        docs
    } else {
        match resolved_all(keys, docs, entities.drop_last()) {
            Ok(d) => match resolved(keys, d, entities.last()) {
                Ok(after) => after,
                Err(_) => d,
            },
            Err(_) => settled(keys, docs, entities.drop_last()),
        }
    }
}

/// Whether a declaration of this kind can carry documentation.
pub fn kind_carries_docs(kind: EntityKind) -> (carries: bool)
    ensures
        carries == carries_docs(kind),
{
    match kind {
        EntityKind::FunctionDecl => true,
        EntityKind::StructDecl => true,
        EntityKind::TypedefDecl => true,
        EntityKind::EnumDecl => true,
        EntityKind::EnumConstantDecl => true,
        EntityKind::Other => false,
    }
}

/// Makes every alias of `locations` an alias of `table`.
pub fn require_aliases(table: &mut DocTable, locations: &DocLocations)
    ensures
        final(table).wf(),
        (final(table).keys(), bodies(final(table))) == required(
            old(table).keys(),
            bodies(old(table)),
            locations.keys(),
        ),
{
    proof {
        use_type_invariant(&*table);
    }
    let ghost wanted = locations.keys();
    let mut i: usize = 0;
    while i < locations.len()
        invariant
            i <= locations.keys().len(),
            wanted == locations.keys(),
            table.wf(),
            (table.keys(), bodies(table)) == required(
                old(table).keys(),
                bodies(old(table)),
                wanted.take(i as int),
            ),
        decreases locations.keys().len() - i,
    {
        proof {
            assert(wanted.take(i + 1).drop_last() == wanted.take(i as int));
            assert(wanted.take(i + 1).last() == wanted[i as int]);
        }
        let key = locations.key(i);
        match table.find(key.as_str()) {
            Some(_) => {
                assert(table.keys().contains(key@));
            },
            None => {
                let ghost before = bodies(table);
                table.push(key.clone(), Vec::new());
                assert(bodies(table) == before.push(Seq::<u8>::empty()));
            },
        }
        i = i + 1;
    }
    assert(wanted.take(locations.keys().len() as int) == wanted);
}

/// Takes in one declaration of the second corpus.
pub fn resolve_entity(table: &mut DocTable, entity: &Entity) -> (done: Result<(), RenderError>)
    ensures
        final(table).wf(),
        final(table).keys() == old(table).keys(),
        match done {
            Ok(()) => resolved(old(table).keys(), bodies(old(table)), *entity) == Ok::<_, ()>(
                bodies(final(table)),
            ),
            Err(_) => resolved(old(table).keys(), bodies(old(table)), *entity) is Err && bodies(
                final(table),
            ) == bodies(old(table)),
        },
{
    proof {
        use_type_invariant(&*table);
    }
    if !kind_carries_docs(entity.kind) {
        return Ok(());
    }
    match (&entity.name, &entity.comment) {
        (Some(name), Some(comment)) => {
            match table.find(name.as_str()) {
                Some(i) => {
                    let ghost keys = table.keys();
                    let ghost docs = bodies(table);
                    proof {
                        lemma_place_of(keys, i as int);
                        assert(docs[i as int] == table.values()[i as int]@);
                    }
                    if table.value(i).len() == 0 {
                        match xml_to_markdown(comment.as_str()) {
                            Ok(doc) => {
                                let ghost text = doc@;
                                let _ = table.swap_value(i, doc);
                                proof {
                                    let now = bodies(table);
                                    assert forall|j: int| 0 <= j < now.len() implies now[j]
                                        == docs.update(i as int, text)[j] by {}
                                    assert(now == docs.update(i as int, text));
                                }
                                Ok(())
                            },
                            Err(e) => Err(e),
                        }
                    } else {
                        Ok(())
                    }
                },
                None => Ok(()),
            }
        },
        _ => Ok(()),
    }
}

/// Takes in the declarations of the second corpus, in their order, and
/// stops at the first comment that cannot be rendered.
pub fn resolve_corpus(table: &mut DocTable, entities: &Vec<Entity>) -> (done: Result<
    (),
    RenderError,
>)
    ensures
        final(table).wf(),
        final(table).keys() == old(table).keys(),
        match done {
            Ok(()) => resolved_all(old(table).keys(), bodies(old(table)), entities@) == Ok::<
                _,
                (),
            >(bodies(final(table))),
            Err(_) => resolved_all(old(table).keys(), bodies(old(table)), entities@) is Err,
        },
        bodies(final(table)) == settled(old(table).keys(), bodies(old(table)), entities@),
{
    proof {
        use_type_invariant(&*table);
    }
    let ghost keys = table.keys();
    let ghost docs = bodies(table);
    let mut i: usize = 0;
    while i < entities.len()
        invariant
            i <= entities.len(),
            table.wf(),
            table.keys() == keys,
            keys == old(table).keys(),
            docs == bodies(old(table)),
            resolved_all(keys, docs, entities@.take(i as int)) == Ok::<_, ()>(bodies(table)),
        decreases entities.len() - i,
    {
        proof {
            assert(entities@.take(i + 1).drop_last() == entities@.take(i as int));
            assert(entities@.take(i + 1).last() == entities@[i as int]);
        }
        match resolve_entity(table, &entities[i]) {
            Ok(()) => {},
            Err(e) => {
                proof {
                    lemma_error_stays(keys, docs, entities@, i + 1);
                }
                return Err(e);
            },
        }
        i = i + 1;
    }
    assert(entities@.take(entities.len() as int) == entities@);
    proof {
        let all = entities@;
        if all.len() > 0 {
            assert(resolved_all(keys, docs, all) is Ok);
        }
    }
    Ok(())
}

/// An error among the first `upto` declarations is the error of them all,
/// and what was settled before it stays settled.
proof fn lemma_error_stays(
    keys: Seq<Seq<char>>,
    docs: Seq<Seq<u8>>,
    entities: Seq<Entity>,
    upto: int,
)
    requires
        0 <= upto <= entities.len(),
        resolved_all(keys, docs, entities.take(upto)) is Err,
    ensures
        resolved_all(keys, docs, entities) is Err,
        settled(keys, docs, entities) == settled(keys, docs, entities.take(upto)),
    decreases entities.len() - upto,
{
    if upto < entities.len() {
        assert(entities.take(upto + 1).drop_last() == entities.take(upto));
        lemma_error_stays(keys, docs, entities, upto + 1);
    } else {
        assert(entities.take(upto) == entities);
    }
}

} // verus!
