//! The extension set of an extendable message, and the registries of extension identifiers it
//! reads extension fields with.
//!
//! A message that can be extended keeps the values of its extension fields in a set, keyed by
//! field number. A field the set does not hold yet is read with the identifier that a registry
//! holds for its field number, if the set has a registry.

use vstd::prelude::*;
use crate::collections::unknown_fields::{
    FieldIndex, FieldSet, TryRead, index_contents, index_new, index_get, index_insert,
};
use crate::io::{FieldNumber, LengthBuilder, tag_field};
use crate::io::read::{self, CodedReader, Error as ReadError, Result as ReadResult};
use crate::io::write::{
    CodedWriter, parts_written, parts_bytes, parts_encodable, lemma_parts_written_append,
    lemma_ok_unit, Result as WriteResult,
};
use crate::raw::{Value, size_added, lemma_size_chain, lemma_size_prefix};
use super::{AnyExtension, Extension, ExtensionConflict, ExtensionIdentifier, ExtensionValue, TryReadValue};

verus! {

/// Whether no two identifiers have the same field number.
pub open spec fn ids_distinct<I: ExtensionIdentifier>(ids: Seq<I>) -> bool {
    forall|a: int, b: int| 0 <= a < b < ids.len() ==> #[trigger] ids[a].id_num() != #[trigger] ids[b].id_num()
}

/// Whether one of the identifiers has field number `n`.
pub open spec fn has_id<I: ExtensionIdentifier>(ids: Seq<I>, n: u32) -> bool {
    exists|i: int| 0 <= i < ids.len() && #[trigger] ids[i].id_num() == n
}

/// The position of the identifier with field number `n`, where there is one.
pub open spec fn id_position<I: ExtensionIdentifier>(ids: Seq<I>, n: u32) -> int {
    choose|i: int| 0 <= i < ids.len() && #[trigger] ids[i].id_num() == n
}

/// Finds the position of the identifier with field number `n`.
fn find_id<I: ExtensionIdentifier>(ids: &Vec<I>, n: u32) -> (r: Option<usize>)
    ensures
        r matches Some(i) ==> i < ids@.len() && ids@[i as int].id_num() == n,
        r is None ==> !has_id(ids@, n),
{
    let mut i: usize = 0;
    while i < ids.len()
        invariant
            i <= ids@.len(),
            forall|j: int| 0 <= j < i ==> #[trigger] ids@[j].id_num() != n,
        decreases ids@.len() - i,
    {
        if ids[i].id_field_number().get() == n {
            return Some(i);
        }
        i = i + 1;
    }
    None
}

/// A builder of a registry of extension identifiers, at most one for each field number.
pub struct RegistryBuilder<I: ExtensionIdentifier> {
    ids: Vec<I>,
}

impl<I: ExtensionIdentifier> View for RegistryBuilder<I> {
    type V = Seq<I>;

    closed spec fn view(&self) -> Seq<I> {
        self.ids@
    }
}

impl<I: ExtensionIdentifier> RegistryBuilder<I> {
    #[verifier::type_invariant]
    closed spec fn inv(self) -> bool {
        ids_distinct(self.ids@)
    }

    /// Creates a builder with no identifier.
    pub fn new() -> (r: RegistryBuilder<I>)
        ensures
            r@ == Seq::<I>::empty(),
    {
        RegistryBuilder { ids: Vec::new() }
    }

    /// Adds an identifier to the registry being built. An identifier whose field number the
    /// builder already holds is refused with that field number.
    pub fn add_identifier(self, id: I) -> (r: Result<RegistryBuilder<I>, ExtensionConflict>)
        ensures
            has_id(self@, id.id_num()) ==> (r matches Err(ExtensionConflict(n)) && n@ == id.id_num()),
            !has_id(self@, id.id_num()) ==> (r matches Ok(b) && b@ == self@.push(id)),
    {
        proof {
            use_type_invariant(&self);
        }
        let n = id.id_field_number();
        match find_id(&self.ids, n.get()) {
            Some(_) => Err(ExtensionConflict(n)),
            None => {
                let RegistryBuilder { ids: mut ids } = self;
                let ghost old_ids = ids@;
                ids.push(id);
                proof {
                    assert forall|a: int, b: int| 0 <= a < b < ids@.len() implies #[trigger] ids@[a].id_num()
                        != #[trigger] ids@[b].id_num() by {
                        if b == old_ids.len() {
                            assert(ids@[a] == old_ids[a]);
                        } else {
                            assert(ids@[a] == old_ids[a] && ids@[b] == old_ids[b]);
                        }
                    }
                }
                Ok(RegistryBuilder { ids })
            },
        }
    }

    /// Adds the identifiers of a registry to the registry being built. Where the builder already
    /// holds an identifier with the field number of one of them, the registry is refused with
    /// such a field number.
    pub fn add_registry(self, registry: ExtensionRegistry<I>) -> (r: Result<RegistryBuilder<I>, ExtensionConflict>)
        ensures
            (exists|i: int| 0 <= i < registry@.len() && has_id(self@, #[trigger] registry@[i].id_num()))
                <==> r is Err,
            r matches Err(ExtensionConflict(n)) ==> has_id(self@, n@) && has_id(registry@, n@),
            r matches Ok(b) ==> b@ == self@ + registry@,
    {
        proof {
            use_type_invariant(&self);
            use_type_invariant(&registry);
        }
        let ExtensionRegistry { ids: mut other } = registry;
        let RegistryBuilder { ids: mut ids } = self;
        let ghost mine = ids@;
        let ghost theirs = other@;
        let mut conflict: Option<FieldNumber> = None;
        let mut k: usize = 0;
        while k < other.len() && conflict.is_none()
            invariant
                other@ == theirs,
                ids@ == mine,
                k <= theirs.len(),
                conflict is None ==> forall|j: int| 0 <= j < k ==> !has_id(mine, #[trigger] theirs[j].id_num()),
                conflict matches Some(n) ==> has_id(mine, n@) && has_id(theirs, n@),
            decreases theirs.len() - k,
        {
            let n = other[k].id_field_number();
            if find_id(&ids, n.get()).is_some() {
                proof {
                    assert(theirs[k as int].id_num() == n@);
                }
                conflict = Some(n);
            }
            k = k + 1;
        }
        if let Some(n) = conflict {
            proof {
                let i = id_position(theirs, n@);
                assert(0 <= i < theirs.len() && theirs[i].id_num() == n@);
                assert(mine == self@ && theirs == registry@);
                assert(has_id(self@, registry@[i].id_num()));
            }
            return Err(ExtensionConflict(n));
        }
        let ghost moved: Seq<I> = Seq::empty();
        while other.len() > 0
            invariant
                theirs == moved + other@,
                ids@ == mine + moved,
                ids_distinct(mine),
                ids_distinct(theirs),
                forall|j: int| 0 <= j < theirs.len() ==> !has_id(mine, #[trigger] theirs[j].id_num()),
            decreases other@.len(),
        {
            let id = other.remove(0);
            proof {
                moved = moved.push(id);
                assert(theirs == moved + other@);
            }
            ids.push(id);
        }
        proof {
            assert(other@ =~= Seq::<I>::empty());
            assert(moved =~= theirs);
            let all = mine + theirs;
            assert(all =~= ids@);
            assert forall|a: int, b: int| 0 <= a < b < all.len() implies #[trigger] all[a].id_num()
                != #[trigger] all[b].id_num() by {
                if b < mine.len() {
                } else if a >= mine.len() {
                    assert(all[a] == theirs[a - mine.len()] && all[b] == theirs[b - mine.len()]);
                } else {
                    assert(all[b] == theirs[b - mine.len()]);
                    if all[a].id_num() == all[b].id_num() {
                        assert(has_id(mine, theirs[b - mine.len()].id_num()));
                    }
                }
            }
        }
        Ok(RegistryBuilder { ids })
    }

    /// Builds the registry, with the identifiers added.
    pub fn build(self) -> (r: ExtensionRegistry<I>)
        ensures
            r@ == self@,
    {
        proof {
            use_type_invariant(&self);
        }
        ExtensionRegistry { ids: self.ids }
    }
}

/// A registry of extension identifiers, at most one for each field number.
pub struct ExtensionRegistry<I: ExtensionIdentifier> {
    ids: Vec<I>,
}

impl<I: ExtensionIdentifier> View for ExtensionRegistry<I> {
    type V = Seq<I>;

    closed spec fn view(&self) -> Seq<I> {
        self.ids@
    }
}

impl<I: ExtensionIdentifier> ExtensionRegistry<I> {
    #[verifier::type_invariant]
    closed spec fn inv(self) -> bool {
        ids_distinct(self.ids@)
    }

    /// Returns whether the registry holds an identifier with the field number.
    pub fn contains(&self, num: FieldNumber) -> (r: bool)
        ensures
            r == has_id(self@, num@),
    {
        find_id(&self.ids, num.get()).is_some()
    }
}

/// The view of an optional registry: its identifiers.
pub open spec fn registry_view<I: ExtensionIdentifier>(r: Option<ExtensionRegistry<I>>) -> Option<Seq<I>> {
    match r {
        Some(g) => Some(g@),
        None => None,
    }
}

/// Whether the registry `r`, where there is one, holds an identifier with field number `n`.
pub open spec fn registry_has<I: ExtensionIdentifier>(r: Option<Seq<I>>, n: u32) -> bool {
    match r {
        Some(ids) => has_id(ids, n),
        None => false,
    }
}

/// Whether one of the extension values has field number `n`.
pub open spec fn has_entry<E: AnyExtension>(es: Seq<E::V>, n: u32) -> bool {
    exists|i: int| 0 <= i < es.len() && #[trigger] E::num_of(es[i]) == n
}

/// The position of the extension value with field number `n`, where there is one.
pub open spec fn entry_position<E: AnyExtension>(es: Seq<E::V>, n: u32) -> int {
    choose|i: int| 0 <= i < es.len() && #[trigger] E::num_of(es[i]) == n
}

/// The outcome of trying to read a field into a set, from that of trying to read it into an
/// extension value.
pub open spec fn try_read_result<U>(rr: read::Result<TryReadValue<U>>) -> ReadResult<TryRead> {
    match rr {
        Ok(TryReadValue::Consumed(_)) => Ok(TryRead::Consumed),
        Ok(TryReadValue::Yielded) => Ok(TryRead::Yielded),
        Err(e) => Err(e),
    }
}

/// What trying to add the field whose tag was the last one read to an extension set does, from
/// the set viewed as `old` (its registry's identifiers, if it has one, and its values) and the
/// reader `old_in` to the set viewed as `new` and the reader `new_in`, with the result `r`:
/// with no last tag nothing is read and the field counts as read; a value the set holds for
/// the field's number merges the field; else the registry's identifier for that number reads
/// it, and a value read is added to the set; else the field is left to others.
pub open spec fn extension_added<I: ExtensionIdentifier>(
    old: (Option<Seq<I>>, Seq<<I::Entry as View>::V>),
    old_in: CodedReader,
    new: (Option<Seq<I>>, Seq<<I::Entry as View>::V>),
    new_in: CodedReader,
    r: ReadResult<TryRead>,
) -> bool {
    match old_in.last_tag_view() {
        None => r == Ok::<TryRead, ReadError>(TryRead::Consumed) && new == old && new_in == old_in,
        Some(t) => {
            let n = tag_field(t@);
            if has_entry::<I::Entry>(old.1, n) {
                let j = entry_position::<I::Entry>(old.1, n);
                exists|ne: <I::Entry as View>::V, rr: read::Result<TryReadValue<()>>|
                    #[trigger] <I::Entry as AnyExtension>::merged(old.1[j], old_in, ne, new_in, rr)
                        && <I::Entry as AnyExtension>::num_of(ne) == n
                        && r == try_read_result(rr) && new == (old.0, old.1.update(j, ne))
            } else {
                match old.0 {
                    Some(ids) if has_id(ids, n) => exists|rr: read::Result<TryReadValue<I::Entry>>|
                        #[trigger] ids[id_position(ids, n)].read(old_in, new_in, rr) && r == try_read_result(rr)
                            && (rr matches Ok(TryReadValue::Consumed(e)) ==> <I::Entry as AnyExtension>::num_of(e@) == n)
                            && new == (
                            old.0,
                            match rr {
                                Ok(TryReadValue::Consumed(e)) => old.1.push(e@),
                                _ => old.1,
                            },
                        ),
                    _ => r == Ok::<TryRead, ReadError>(TryRead::Yielded) && new == old && new_in == old_in,
                }
            }
        },
    }
}

/// The parts the extension values `es` are written as, one after the other.
pub open spec fn ext_set_parts<E: AnyExtension>(es: Seq<E::V>) -> Seq<(bool, Seq<u8>)>
    decreases es.len(),
{
    if es.len() == 0 {
        Seq::empty()
    } else {
        ext_set_parts::<E>(es.drop_last()) + E::ext_parts(es.last())
    }
}

/// The extension fields of an extendable message: for each field number, its value, kept in the
/// order the fields were first read; and the registry the set reads new fields with.
pub struct ExtensionSet<I: ExtensionIdentifier> {
    registry: Option<ExtensionRegistry<I>>,
    index: FieldIndex,
    entries: Vec<I::Entry>,
}

/// The views of a run of extension values.
pub open spec fn entries_view<E: AnyExtension>(es: Seq<E>) -> Seq<E::V> {
    es.map_values(|e: E| e@)
}

impl<I: ExtensionIdentifier> View for ExtensionSet<I> {
    type V = (Option<Seq<I>>, Seq<<I::Entry as View>::V>);

    closed spec fn view(&self) -> (Option<Seq<I>>, Seq<<I::Entry as View>::V>) {
        (registry_view(self.registry), entries_view(self.entries@))
    }
}

impl<I: ExtensionIdentifier> ExtensionSet<I> {
    #[verifier::type_invariant]
    closed spec fn inv(self) -> bool {
        &&& forall|i: int|
            0 <= i < self.entries@.len() ==> index_contents(self.index).contains_key(
                <I::Entry as AnyExtension>::num_of(#[trigger] self.entries@[i]@),
            ) && index_contents(self.index)[<I::Entry as AnyExtension>::num_of(self.entries@[i]@)] == i
        &&& forall|k: u32|
            #[trigger] index_contents(self.index).contains_key(k) ==> index_contents(self.index)[k]
                < self.entries@.len() && <I::Entry as AnyExtension>::num_of(
                self.entries@[index_contents(self.index)[k] as int]@,
            ) == k
    }

    /// Creates an empty set without a registry.
    pub fn new() -> (r: ExtensionSet<I>)
        ensures
            r@ == (None::<Seq<I>>, Seq::<<I::Entry as View>::V>::empty()),
    {
        let r = ExtensionSet { registry: None, index: index_new(), entries: Vec::new() };
        proof {
            assert(entries_view(r.entries@) =~= Seq::<<I::Entry as View>::V>::empty());
        }
        r
    }

    /// Gets the registry the set reads new fields with, if it has one.
    pub fn registry(&self) -> (r: Option<&ExtensionRegistry<I>>)
        ensures
            match r {
                Some(g) => self@.0 == Some(g@),
                None => self@.0 is None,
            },
    {
        match &self.registry {
            Some(g) => Some(g),
            None => None,
        }
    }

    /// Replaces the registry of the set, giving back the old one. The values the set held are
    /// dropped, whatever the new registry is.
    pub fn replace_registry(&mut self, new: Option<ExtensionRegistry<I>>) -> (r: Option<ExtensionRegistry<I>>)
        ensures
            final(self)@ == (registry_view(new), Seq::<<I::Entry as View>::V>::empty()),
            registry_view(r) == old(self)@.0,
    {
        let mut this = ExtensionSet::new();
        core::mem::swap(self, &mut this);
        let ExtensionSet { registry, index: _, entries: _ } = this;
        *self = ExtensionSet { registry: new, index: index_new(), entries: Vec::new() };
        proof {
            assert(entries_view(self.entries@) =~= Seq::<<I::Entry as View>::V>::empty());
        }
        registry
    }

    /// Returns whether the registry of the set holds an identifier with the field number.
    fn registry_contains(&self, n: u32) -> (r: bool)
        ensures
            r == registry_has(self@.0, n),
    {
        match &self.registry {
            Some(g) => {
                proof {
                    use_type_invariant(g);
                }
                find_id(&g.ids, n).is_some()
            },
            None => false,
        }
    }

    /// Returns whether the set holds a value with the extension's field number, whether or
    /// not its registry knows that number.
    pub fn has_extension_unchecked(&self, extension: &I) -> (r: bool)
        ensures
            r == has_entry::<I::Entry>(self@.1, extension.id_num()),
    {
        proof {
            use_type_invariant(self);
        }
        let n = extension.id_field_number().get();
        match index_get(&self.index, n) {
            Some(i) => {
                proof {
                    assert(<I::Entry as AnyExtension>::num_of(entries_view(self.entries@)[i as int]) == n);
                }
                true
            },
            None => {
                proof {
                    if has_entry::<I::Entry>(self@.1, n) {
                        let j = entry_position::<I::Entry>(self@.1, n);
                        assert(index_contents(self.index).contains_key(
                            <I::Entry as AnyExtension>::num_of(self.entries@[j]@),
                        ));
                    }
                }
                false
            },
        }
    }

    /// Returns whether the registry of the set knows the extension's field number and the set
    /// holds a value with it.
    pub fn has_extension(&self, extension: &I) -> (r: bool)
        ensures
            r == (registry_has(self@.0, extension.id_num()) && has_entry::<I::Entry>(self@.1, extension.id_num())),
    {
        self.registry_contains(extension.id_field_number().get()) && self.has_extension_unchecked(extension)
    }
}

impl<V: Value> ExtensionSet<Extension<V>> where V::Inner: 'static {
    /// Gets the value the set holds for the extension, where the registry of the set knows the
    /// extension's field number.
    pub fn value<'a>(&'a self, extension: &Extension<V>) -> (r: Option<&'a V::Inner>)
        ensures
            registry_has(self@.0, extension.num_view()) && has_entry::<ExtensionValue<V>>(self@.1, extension.num_view())
                ==> (r matches Some(x) && x@ == self@.1[entry_position::<ExtensionValue<V>>(self@.1, extension.num_view())].1),
            !(registry_has(self@.0, extension.num_view()) && has_entry::<ExtensionValue<V>>(self@.1, extension.num_view()))
                ==> r is None,
    {
        proof {
            use_type_invariant(self);
        }
        let n = extension.field_number();
        if !self.registry_contains(n.get()) {
            return None;
        }
        match index_get(&self.index, n.get()) {
            Some(i) => {
                proof {
                    let es = self@.1;
                    assert(es[i as int].0 == n@);
                    let j = entry_position::<ExtensionValue<V>>(es, n@);
                    assert(index_contents(self.index).contains_key(es[j].0));
                }
                Some(&self.entries[i].value)
            },
            None => {
                proof {
                    if has_entry::<ExtensionValue<V>>(self@.1, n@) {
                        let j = entry_position::<ExtensionValue<V>>(self@.1, n@);
                        assert(index_contents(self.index).contains_key(self.entries@[j]@.0));
                    }
                }
                None
            },
        }
    }

    /// Gets the value the set holds for the extension, as `value` does, or else the extension's
    /// default value, if it has one.
    pub fn value_or_default<'a>(&'a self, extension: &'a Extension<V>) -> (r: Option<&'a V::Inner>)
        ensures
            registry_has(self@.0, extension.num_view()) && has_entry::<ExtensionValue<V>>(self@.1, extension.num_view())
                ==> (r matches Some(x) && x@ == self@.1[entry_position::<ExtensionValue<V>>(self@.1, extension.num_view())].1),
            !(registry_has(self@.0, extension.num_view()) && has_entry::<ExtensionValue<V>>(self@.1, extension.num_view()))
                ==> match r {
                Some(x) => extension.default_value_view() == Some(x@),
                None => extension.default_value_view() is None,
            },
    {
        match self.value(extension) {
            Some(x) => Some(x),
            None => extension.default_value(),
        }
    }
}

impl<I: ExtensionIdentifier> FieldSet for ExtensionSet<I> {
    open spec fn field_added(
        old: (Option<Seq<I>>, Seq<<I::Entry as View>::V>),
        old_in: CodedReader,
        new: (Option<Seq<I>>, Seq<<I::Entry as View>::V>),
        new_in: CodedReader,
        r: ReadResult<TryRead>,
    ) -> bool {
        extension_added::<I>(old, old_in, new, new_in, r)
    }

    open spec fn fields_parts(v: (Option<Seq<I>>, Seq<<I::Entry as View>::V>)) -> Seq<(bool, Seq<u8>)> {
        ext_set_parts::<I::Entry>(v.1)
    }

    #[verifier::spinoff_prover]
    fn try_add_field_from(&mut self, input: &mut CodedReader) -> (r: ReadResult<TryRead>) {
        proof {
            use_type_invariant(&*self);
        }
        let tag = match input.last_tag() {
            Some(t) => t,
            None => return Ok(TryRead::Consumed),
        };
        let n = tag.field().get();
        let ghost old_view = self@;
        let ghost old_in = *input;
        let mut this = ExtensionSet::new();
        core::mem::swap(self, &mut this);
        let ExtensionSet { registry, index: mut index, entries: mut entries } = this;
        let ghost old_entries = entries@;
        match index_get(&index, n) {
            Some(i) => {
                let ghost j = entry_position::<I::Entry>(old_view.1, n);
                proof {
                    assert(<I::Entry as AnyExtension>::num_of(old_view.1[i as int]) == n);
                    assert(index_contents(index).contains_key(<I::Entry as AnyExtension>::num_of(old_entries[j]@)));
                    assert(j == i);
                }
                let rr = entries[i].try_merge_from(input);
                proof {
                    assert forall|q: int| 0 <= q < entries@.len() implies <I::Entry as AnyExtension>::num_of(
                        #[trigger] entries@[q]@,
                    ) == <I::Entry as AnyExtension>::num_of(old_entries[q]@) by {
                        if q != i {
                            assert(entries@[q] == old_entries[q]);
                        }
                    }
                    assert(entries_view(entries@) =~= old_view.1.update(i as int, entries@[i as int]@));
                    assert(<I::Entry as AnyExtension>::merged(old_view.1[j], old_in, entries@[i as int]@, *input, rr));
                }
                *self = ExtensionSet { registry, index, entries };
                match rr {
                    Ok(TryReadValue::Consumed(())) => Ok(TryRead::Consumed),
                    Ok(TryReadValue::Yielded) => Ok(TryRead::Yielded),
                    Err(e) => Err(e),
                }
            },
            None => {
                proof {
                    if has_entry::<I::Entry>(old_view.1, n) {
                        let j = entry_position::<I::Entry>(old_view.1, n);
                        assert(index_contents(index).contains_key(<I::Entry as AnyExtension>::num_of(old_entries[j]@)));
                    }
                }
                let read = match &registry {
                    Some(g) => {
                        proof {
                            use_type_invariant(g);
                        }
                        match find_id(&g.ids, n) {
                            Some(k) => {
                                proof {
                                    assert(has_id(g@, n));
                                    let p = id_position(g@, n);
                                    assert(p == k as int);
                                }
                                Some(g.ids[k].try_read_value(input))
                            },
                            None => None,
                        }
                    },
                    None => None,
                };
                match read {
                    Some(Ok(TryReadValue::Consumed(e))) => {
                        let len = entries.len();
                        let ghost old_map = index_contents(index);
                        index_insert(&mut index, n, len);
                        entries.push(e);
                        proof {
                            assert forall|k: u32| #[trigger] index_contents(index).contains_key(k) implies index_contents(index)[k]
                                < entries@.len() && <I::Entry as AnyExtension>::num_of(
                                entries@[index_contents(index)[k] as int]@,
                            ) == k by {
                                if k != n {
                                    assert(old_map.contains_key(k));
                                    assert(entries@[old_map[k] as int] == old_entries[old_map[k] as int]);
                                }
                            }
                            assert forall|q: int| 0 <= q < entries@.len() implies index_contents(index).contains_key(
                                <I::Entry as AnyExtension>::num_of(#[trigger] entries@[q]@),
                            ) && index_contents(index)[<I::Entry as AnyExtension>::num_of(entries@[q]@)] == q by {
                                if q < len {
                                    assert(entries@[q] == old_entries[q]);
                                }
                            }
                            assert(entries_view(entries@) =~= old_view.1.push(e@));
                        }
                        *self = ExtensionSet { registry, index, entries };
                        Ok(TryRead::Consumed)
                    },
                    Some(Ok(TryReadValue::Yielded)) => {
                        *self = ExtensionSet { registry, index, entries };
                        Ok(TryRead::Yielded)
                    },
                    Some(Err(e)) => {
                        *self = ExtensionSet { registry, index, entries };
                        Err(e)
                    },
                    None => {
                        *self = ExtensionSet { registry, index, entries };
                        Ok(TryRead::Yielded)
                    },
                }
            },
        }
    }

    fn calculate_size(&self, builder: LengthBuilder) -> (r: Option<LengthBuilder>) {
        let ghost es = self@.1;
        proof {
            assert(es.take(0) =~= Seq::<<I::Entry as View>::V>::empty());
        }
        let mut b = builder;
        let mut i: usize = 0;
        while i < self.entries.len()
            invariant
                es == self@.1,
                es == entries_view(self.entries@),
                es.len() == self.entries@.len(),
                i <= es.len(),
                size_added(
                    builder@ as int,
                    parts_encodable(ext_set_parts::<I::Entry>(es.take(i as int))),
                    parts_bytes(ext_set_parts::<I::Entry>(es.take(i as int))).len() as int,
                    Some(b),
                ),
            decreases es.len() - i,
        {
            let ghost done = ext_set_parts::<I::Entry>(es.take(i as int));
            let ghost cur = <I::Entry as AnyExtension>::ext_parts(es[i as int]);
            let ghost rest = ext_set_parts::<I::Entry>(es.skip(i + 1));
            proof {
                assert(es.take(i + 1).drop_last() =~= es.take(i as int));
                assert(ext_set_parts::<I::Entry>(es.take(i + 1)) == done + cur);
                lemma_ext_set_parts_append::<I::Entry>(es.take(i + 1), es.skip(i + 1));
                assert(es.take(i + 1) + es.skip(i + 1) =~= es);
            }
            let r = self.entries[i].calculate_size(b);
            proof {
                lemma_size_chain(builder@ as int, done, cur, Some(b), r);
            }
            b = match r {
                Some(b1) => b1,
                None => {
                    proof {
                        lemma_size_prefix(builder@ as int, done + cur, rest);
                    }
                    return None;
                },
            };
            i = i + 1;
        }
        proof {
            assert(es.take(i as int) =~= es);
        }
        Some(b)
    }

    fn write_to(&self, output: &mut CodedWriter) -> (r: WriteResult) {
        let ghost es = self@.1;
        let ghost start = output.written();
        let ghost cap = output.capacity();
        proof {
            assert(es.take(0) =~= Seq::<<I::Entry as View>::V>::empty());
        }
        let mut i: usize = 0;
        while i < self.entries.len()
            invariant
                es == self@.1,
                es == entries_view(self.entries@),
                es.len() == self.entries@.len(),
                i <= es.len(),
                start == old(output).written(),
                cap == old(output).capacity(),
                output.capacity() == cap,
                (*final(output.target()))@ == (*final(old(output).target()))@,
                parts_written(start, cap, ext_set_parts::<I::Entry>(es.take(i as int))).0 == output.written(),
                parts_written(start, cap, ext_set_parts::<I::Entry>(es.take(i as int))).1 is Ok,
            decreases es.len() - i,
        {
            let ghost done = ext_set_parts::<I::Entry>(es.take(i as int));
            let ghost cur = <I::Entry as AnyExtension>::ext_parts(es[i as int]);
            let ghost rest = ext_set_parts::<I::Entry>(es.skip(i + 1));
            proof {
                assert(es.take(i + 1).drop_last() =~= es.take(i as int));
                assert(ext_set_parts::<I::Entry>(es.take(i + 1)) == done + cur);
                lemma_ext_set_parts_append::<I::Entry>(es.take(i + 1), es.skip(i + 1));
                assert(es.take(i + 1) + es.skip(i + 1) =~= es);
                lemma_parts_written_append(start, cap, done, cur);
                lemma_parts_written_append(start, cap, done + cur, rest);
            }
            match self.entries[i].write_to(output) {
                Ok(()) => {},
                Err(e) => return Err(e),
            }
            i = i + 1;
        }
        proof {
            assert(es.take(i as int) =~= es);
            lemma_ok_unit(parts_written(start, cap, ext_set_parts::<I::Entry>(es)).1);
        }
        Ok(())
    }

    fn is_initialized(&self) -> (r: bool) {
        let mut i: usize = 0;
        while i < self.entries.len()
            invariant
                i <= self.entries@.len(),
            decreases self.entries@.len() - i,
        {
            if !self.entries[i].is_initialized() {
                return false;
            }
            i = i + 1;
        }
        true
    }
}

/// A field that an extension set consumes is held by the set afterwards: where the set held a
/// value for the field's number, or its registry knows that number, and trying to add the field
/// whose tag was the last one read gives `Consumed`, the set holds a value with that number;
/// the registry is never changed by reading.
pub proof fn lemma_consumed_field_is_held<I: ExtensionIdentifier>(
    old: (Option<Seq<I>>, Seq<<I::Entry as View>::V>),
    old_in: CodedReader,
    new: (Option<Seq<I>>, Seq<<I::Entry as View>::V>),
    new_in: CodedReader,
    t: crate::io::Tag,
)
    requires
        extension_added::<I>(old, old_in, new, new_in, Ok(TryRead::Consumed)),
        old_in.last_tag_view() == Some(t),
        has_entry::<I::Entry>(old.1, tag_field(t@)) || registry_has(old.0, tag_field(t@)),
    ensures
        has_entry::<I::Entry>(new.1, tag_field(t@)),
        new.0 == old.0,
{
    let n = tag_field(t@);
    if has_entry::<I::Entry>(old.1, n) {
        let j = entry_position::<I::Entry>(old.1, n);
        let (ne, rr) = choose|ne: <I::Entry as View>::V, rr: read::Result<TryReadValue<()>>|
            #[trigger] <I::Entry as AnyExtension>::merged(old.1[j], old_in, ne, new_in, rr)
                && <I::Entry as AnyExtension>::num_of(ne) == n
                && Ok::<TryRead, ReadError>(TryRead::Consumed) == try_read_result(rr) && new == (old.0, old.1.update(j, ne));
        assert(<I::Entry as AnyExtension>::num_of(new.1[j]) == n);
    } else {
        let ids = old.0->Some_0;
        let rr = choose|rr: read::Result<TryReadValue<I::Entry>>|
            #[trigger] ids[id_position(ids, n)].read(old_in, new_in, rr)
                && Ok::<TryRead, ReadError>(TryRead::Consumed) == try_read_result(rr)
                && (rr matches Ok(TryReadValue::Consumed(e)) ==> <I::Entry as AnyExtension>::num_of(e@) == n)
                && new == (
                old.0,
                match rr {
                    Ok(TryReadValue::Consumed(e)) => old.1.push(e@),
                    _ => old.1,
                },
            );
        match rr {
            Ok(TryReadValue::Consumed(e)) => {
                assert(<I::Entry as AnyExtension>::num_of(new.1[old.1.len() as int]) == n);
            },
            _ => {},
        }
    }
}

/// The parts of two runs of extension values are those of the first, then those of the second.
pub proof fn lemma_ext_set_parts_append<E: AnyExtension>(a: Seq<E::V>, b: Seq<E::V>)
    ensures
        ext_set_parts::<E>(a + b) == ext_set_parts::<E>(a) + ext_set_parts::<E>(b),
    decreases b.len(),
{
    if b.len() == 0 {
        assert(a + b =~= a);
        assert(ext_set_parts::<E>(a) + ext_set_parts::<E>(b) =~= ext_set_parts::<E>(a));
    } else {
        let ab = a + b;
        assert(ab.drop_last() =~= a + b.drop_last());
        assert(ab.last() == b.last());
        lemma_ext_set_parts_append::<E>(a, b.drop_last());
        assert(ext_set_parts::<E>(a + b) =~= ext_set_parts::<E>(a) + ext_set_parts::<E>(b));
    }
}

} // verus!
