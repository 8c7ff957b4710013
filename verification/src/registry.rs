//! The type registry: aliases for ontic type identifiers, the counter that
//! hands out identifiers to new aliases, and conversion bridges.
use vstd::prelude::*;
use crate::assoc::{assoc, keys_distinct, lemma_assoc, lemma_assoc_push, lemma_assoc_update};
use crate::assoc::lemma_assoc_congruent;
use crate::types::{Op, NexusError, NULL_TYPE, SCALAR, METER, KILOGRAM, SECOND, BIT, FIRST_USER_TYPE};
use crate::text::push_decimal;
use crate::json::{alias_fn, alias_text, joined, lemma_joined_step, push_char, push_quoted_str, string_from_chars, views};
use crate::snapshot::{alias_list_text, bridge_fn, bridge_list_text, push_bridge};

verus! {

/// A conversion rule: a value of type `from` becomes a value of type `to` by
/// applying `op` with `factor` as its right operand.
#[derive(Debug, Clone)]
struct BridgeEntry<T> {
    from: u64,
    to: u64,
    op: Op,
    factor: T,
}

/// The registry's model.
pub struct RegistryModel<T> {
    /// Each alias and the identifier it names.
    pub aliases: Map<Seq<char>, u64>,
    /// Each (from, to) pair with a bridge, and the bridge's verb and factor.
    pub bridges: Map<(u64, u64), (Op, T)>,
    /// The identifier that the next automatic definition hands out.
    pub next_auto_id: u64,
}

spec fn alias_key() -> spec_fn((String, u64)) -> Seq<char> {
    |e: (String, u64)| e.0@
}

spec fn alias_val() -> spec_fn((String, u64)) -> u64 {
    |e: (String, u64)| e.1
}

spec fn bridge_key<T>() -> spec_fn(BridgeEntry<T>) -> (u64, u64) {
    |e: BridgeEntry<T>| (e.from, e.to)
}

spec fn bridge_val<T>() -> spec_fn(BridgeEntry<T>) -> (Op, T) {
    |e: BridgeEntry<T>| (e.op, e.factor)
}

/// The aliases of the six built-in types.
pub open spec fn builtin_aliases() -> Map<Seq<char>, u64> {
    Map::empty().insert("NULL_TYPE"@, NULL_TYPE).insert("SCALAR"@, SCALAR).insert("METER"@, METER).insert(
        "KILOGRAM"@,
        KILOGRAM,
    ).insert("SECOND"@, SECOND).insert("BIT"@, BIT)
}

/// The registry of a new context: the built-in aliases, no bridge, and the
/// automatic counter at the start of the user range.
pub open spec fn initial_registry<T>() -> RegistryModel<T> {
    RegistryModel { aliases: builtin_aliases(), bridges: Map::empty(), next_auto_id: FIRST_USER_TYPE }
}

/// The registry after an automatic definition of a new alias.
pub open spec fn after_define<T>(m: RegistryModel<T>, alias: Seq<char>) -> RegistryModel<T> {
    RegistryModel {
        aliases: m.aliases.insert(alias, m.next_auto_id),
        bridges: m.bridges,
        next_auto_id: (m.next_auto_id + 1) as u64,
    }
}

/// The registry after an explicit definition of a new alias.
pub open spec fn after_define_explicit<T>(m: RegistryModel<T>, alias: Seq<char>, id: u64) -> RegistryModel<T> {
    RegistryModel {
        aliases: m.aliases.insert(alias, id),
        bridges: m.bridges,
        next_auto_id: if id >= m.next_auto_id { (id + 1) as u64 } else { m.next_auto_id },
    }
}

/// Some alias names the identifier `id`.
pub open spec fn id_in_use<T>(m: RegistryModel<T>, id: u64) -> bool {
    exists|a: Seq<char>| #[trigger] m.aliases.contains_key(a) && m.aliases[a] == id
}

/// Every identifier that an alias names lies below the automatic counter.
pub open spec fn ids_below_counter<T>(m: RegistryModel<T>) -> bool {
    forall|a: Seq<char>| #[trigger] m.aliases.contains_key(a) ==> m.aliases[a] < m.next_auto_id
}

/// An alias entry as a name and an identifier.
pub open spec fn alias_entry_view() -> spec_fn((String, u64)) -> (Seq<char>, u64) {
    |e: (String, u64)| (e.0@, e.1)
}

/// A bridge entry as its source, target, verb and factor.
spec fn bridge_entry_view<T>() -> spec_fn(BridgeEntry<T>) -> (u64, u64, Op, T) {
    |e: BridgeEntry<T>| (e.from, e.to, e.op, e.factor)
}

/// The key of an alias entry: its name.
pub open spec fn alias_name<X>() -> spec_fn((Seq<char>, X)) -> Seq<char> {
    |e: (Seq<char>, X)| e.0
}

/// The key of a bridge entry: its source and target types.
pub open spec fn bridge_ends<T>() -> spec_fn((u64, u64, Op, T)) -> (u64, u64) {
    |e: (u64, u64, Op, T)| (e.0, e.1)
}

/// The identifier of an alias entry.
pub open spec fn alias_id() -> spec_fn((Seq<char>, u64)) -> u64 {
    |e: (Seq<char>, u64)| e.1
}

/// The verb and factor of a bridge entry.
pub open spec fn bridge_rule<T>() -> spec_fn((u64, u64, Op, T)) -> (Op, T) {
    |e: (u64, u64, Op, T)| (e.2, e.3)
}

/// Entries that make up a valid registry: no alias and no bridge held twice,
/// and every identifier below the automatic counter.
pub open spec fn registry_entries_ok<T>(aliases: Seq<(Seq<char>, u64)>, bridges: Seq<(u64, u64, Op, T)>, next: u64) -> bool {
    &&& keys_distinct(aliases, alias_name::<u64>())
    &&& forall|i: int| 0 <= i < aliases.len() ==> #[trigger] aliases[i].1 < next
    &&& keys_distinct(bridges, bridge_ends::<T>())
    &&& next >= FIRST_USER_TYPE
}

/// The registry of type aliases and bridges.
#[derive(Debug, Clone)]
pub struct TypeRegistry<T> {
    aliases: Vec<(String, u64)>,
    bridges: Vec<BridgeEntry<T>>,
    next_auto_id: u64,
}

impl<T> View for TypeRegistry<T> {
    type V = RegistryModel<T>;

    closed spec fn view(&self) -> RegistryModel<T> {
        RegistryModel {
            aliases: assoc(self.aliases@, alias_key(), alias_val()),
            bridges: assoc(self.bridges@, bridge_key(), bridge_val()),
            next_auto_id: self.next_auto_id,
        }
    }
}

impl<T: Copy> TypeRegistry<T> {
    /// The registry's validity: no alias and no bridge is held twice, and the
    /// automatic counter lies above every identifier in use.
    pub closed spec fn wf(&self) -> bool {
        &&& keys_distinct(self.aliases@, alias_key())
        &&& keys_distinct(self.bridges@, bridge_key::<T>())
        &&& ids_below_counter(self@)
        &&& self@.next_auto_id >= FIRST_USER_TYPE
    }

    /// In a valid registry every identifier in use lies below the automatic
    /// counter, and the counter lies in the user range.
    pub proof fn lemma_counter(&self)
        requires
            self.wf(),
        ensures
            ids_below_counter(self@),
            self@.next_auto_id >= FIRST_USER_TYPE,
    {
    }

    /// The alias entries, in the order in which they are held.
    pub closed spec fn alias_entries(&self) -> Seq<(Seq<char>, u64)> {
        self.aliases@.map_values(alias_entry_view())
    }

    /// The bridge entries, in the order in which they are held.
    pub closed spec fn bridge_entries(&self) -> Seq<(u64, u64, Op, T)> {
        self.bridges@.map_values(bridge_entry_view::<T>())
    }

    /// The automatic counter.
    pub fn next_id(&self) -> (n: u64)
        ensures
            n == self@.next_auto_id,
    {
        self.next_auto_id
    }

    /// A valid registry's entries are valid.
    pub proof fn lemma_entries_ok(&self)
        requires
            self.wf(),
        ensures
            registry_entries_ok(self.alias_entries(), self.bridge_entries(), self@.next_auto_id),
    {
        let a = self.alias_entries();
        let b = self.bridge_entries();
        lemma_assoc_congruent(self.aliases@, a, alias_key(), alias_val(), alias_name::<u64>(), |e: (Seq<char>, u64)| e.1);
        lemma_assoc_congruent(
            self.bridges@,
            b,
            bridge_key::<T>(),
            bridge_val::<T>(),
            bridge_ends::<T>(),
            |e: (u64, u64, Op, T)| (e.2, e.3),
        );
        lemma_assoc(self.aliases@, alias_key(), alias_val());
        assert forall|i: int| 0 <= i < a.len() implies #[trigger] a[i].1 < self@.next_auto_id by {
            assert(self@.aliases.contains_key(alias_key()(self.aliases@[i])));
        }
    }

    /// The entries stand for the registry's aliases and bridges.
    pub proof fn lemma_entries_model(&self)
        ensures
            assoc(self.alias_entries(), alias_name::<u64>(), alias_id()) == self@.aliases,
            assoc(self.bridge_entries(), bridge_ends::<T>(), bridge_rule::<T>()) == self@.bridges,
    {
        lemma_assoc_congruent(self.aliases@, self.alias_entries(), alias_key(), alias_val(), alias_name::<u64>(), alias_id());
        lemma_assoc_congruent(
            self.bridges@,
            self.bridge_entries(),
            bridge_key::<T>(),
            bridge_val::<T>(),
            bridge_ends::<T>(),
            bridge_rule::<T>(),
        );
    }

    /// Registries with the same entries and counter have the same model.
    pub proof fn lemma_entries_determine(&self, other: &Self)
        requires
            self.alias_entries() == other.alias_entries(),
            self.bridge_entries() == other.bridge_entries(),
            self@.next_auto_id == other@.next_auto_id,
        ensures
            self@ == other@,
    {
        assert(self.aliases@.len() == self.alias_entries().len());
        assert(other.aliases@.len() == other.alias_entries().len());
        assert forall|j: int| 0 <= j < self.aliases@.len() implies alias_key()(#[trigger] self.aliases@[j]) == alias_key()(
            other.aliases@[j],
        ) && alias_val()(self.aliases@[j]) == alias_val()(other.aliases@[j]) by {
            assert(self.alias_entries()[j] == other.alias_entries()[j]);
        }
        lemma_assoc_congruent(self.aliases@, other.aliases@, alias_key(), alias_val(), alias_key(), alias_val());
        assert(self.bridges@.len() == self.bridge_entries().len());
        assert(other.bridges@.len() == other.bridge_entries().len());
        assert forall|j: int| 0 <= j < self.bridges@.len() implies bridge_key::<T>()(#[trigger] self.bridges@[j]) == bridge_key::<T>()(
            other.bridges@[j],
        ) && bridge_val::<T>()(self.bridges@[j]) == bridge_val::<T>()(other.bridges@[j]) by {
            assert(self.bridge_entries()[j] == other.bridge_entries()[j]);
        }
        lemma_assoc_congruent(self.bridges@, other.bridges@, bridge_key::<T>(), bridge_val::<T>(), bridge_key::<T>(), bridge_val::<T>());
    }

    /// This registry with every bridge factor mapped through `g`.
    pub fn map_factors<U: Copy, G: Fn(T) -> U>(&self, g: &G) -> (r: TypeRegistry<U>)
        requires
            self.wf(),
            forall|x: T| call_requires(*g, (x,)),
        ensures
            r.wf(),
            r@.aliases == self@.aliases,
            r@.next_auto_id == self@.next_auto_id,
            r@.bridges.dom() == self@.bridges.dom(),
            forall|k: (u64, u64)| #[trigger] self@.bridges.contains_key(k) ==> r@.bridges[k].0 == self@.bridges[k].0
                && call_ensures(*g, (self@.bridges[k].1,), r@.bridges[k].1),
    {
        let mut aliases: Vec<(String, u64)> = Vec::with_capacity(self.aliases.len());
        let mut i: usize = 0;
        while i < self.aliases.len()
            invariant
                i <= self.aliases@.len(),
                aliases@.len() == i,
                forall|j: int| 0 <= j < i ==> (#[trigger] aliases@[j]).0@ == self.aliases@[j].0@ && aliases@[j].1
                    == self.aliases@[j].1,
            decreases self.aliases@.len() - i,
        {
            let name = self.aliases[i].0.clone();
            aliases.push((name, self.aliases[i].1));
            i = i + 1;
        }
        let mut bridges: Vec<BridgeEntry<U>> = Vec::with_capacity(self.bridges.len());
        let mut k: usize = 0;
        while k < self.bridges.len()
            invariant
                k <= self.bridges@.len(),
                bridges@.len() == k,
                forall|x: T| call_requires(*g, (x,)),
                forall|j: int| 0 <= j < k ==> (#[trigger] bridges@[j]).from == self.bridges@[j].from && bridges@[j].to
                    == self.bridges@[j].to && bridges@[j].op == self.bridges@[j].op && call_ensures(
                    *g,
                    (self.bridges@[j].factor,),
                    bridges@[j].factor,
                ),
            decreases self.bridges@.len() - k,
        {
            let e = &self.bridges[k];
            let factor = g(e.factor);
            bridges.push(BridgeEntry { from: e.from, to: e.to, op: e.op, factor });
            k = k + 1;
        }
        let r = TypeRegistry { aliases, bridges, next_auto_id: self.next_auto_id };
        proof {
            assert forall|j: int| 0 <= j < self.aliases@.len() implies alias_key()(#[trigger] self.aliases@[j]) == alias_key()(
                r.aliases@[j],
            ) && alias_val()(self.aliases@[j]) == alias_val()(r.aliases@[j]) by {
                assert(r.aliases@[j].0@ == self.aliases@[j].0@);
            }
            lemma_assoc_congruent(self.aliases@, r.aliases@, alias_key(), alias_val(), alias_key(), alias_val());
            assert forall|j: int| 0 <= j < self.bridges@.len() implies bridge_key::<T>()(#[trigger] self.bridges@[j])
                == bridge_key::<U>()(r.bridges@[j]) && bridge_key::<T>()(self.bridges@[j]) == bridge_key::<U>()(
                r.bridges@[j],
            ) by {
                assert(r.bridges@[j].from == self.bridges@[j].from);
            }
            lemma_assoc_congruent(
                self.bridges@,
                r.bridges@,
                bridge_key::<T>(),
                bridge_key::<T>(),
                bridge_key::<U>(),
                bridge_key::<U>(),
            );
            lemma_assoc(self.bridges@, bridge_key::<T>(), bridge_val::<T>());
            lemma_assoc(r.bridges@, bridge_key::<U>(), bridge_val::<U>());
            assert forall|key: (u64, u64)| r@.bridges.contains_key(key) <==> self@.bridges.contains_key(key) by {
                if r@.bridges.contains_key(key) {
                    let j = choose|j: int| 0 <= j < r.bridges@.len() && bridge_key::<U>()(r.bridges@[j]) == key;
                    assert(bridge_key::<T>()(self.bridges@[j]) == key);
                }
                if self@.bridges.contains_key(key) {
                    let j = choose|j: int| 0 <= j < self.bridges@.len() && bridge_key::<T>()(self.bridges@[j]) == key;
                    assert(bridge_key::<U>()(r.bridges@[j]) == key);
                }
            }
            assert(r@.bridges.dom() =~= self@.bridges.dom());
            assert(keys_distinct(r.aliases@, alias_key()));
            assert(keys_distinct(r.bridges@, bridge_key::<U>()));
            assert(r@.aliases == self@.aliases);
            assert(ids_below_counter(r@));
            assert forall|key: (u64, u64)| #[trigger] self@.bridges.contains_key(key) implies r@.bridges[key].0
                == self@.bridges[key].0 && call_ensures(*g, (self@.bridges[key].1,), r@.bridges[key].1) by {
                let j = choose|j: int| 0 <= j < self.bridges@.len() && bridge_key::<T>()(self.bridges@[j]) == key;
                assert(self@.bridges[bridge_key::<T>()(self.bridges@[j])] == bridge_val::<T>()(self.bridges@[j]));
                assert(bridge_key::<U>()(r.bridges@[j]) == key);
                assert(r@.bridges[bridge_key::<U>()(r.bridges@[j])] == bridge_val::<U>()(r.bridges@[j]));
            }
        }
        r
    }

    /// Appends the alias entries as a JSON list.
    pub fn write_aliases(&self, out: &mut String)
        ensures
            final(out)@ == old(out)@ + alias_list_text(self.alias_entries()),
    {
        push_alias_list(out, &self.aliases);
    }

    /// A registry that holds the six built-in aliases, no bridge, and the
    /// automatic counter at the start of the user range.
    pub fn new() -> (r: Self)
        ensures
            r.wf(),
            r@ == initial_registry::<T>(),
    {
        let mut aliases: Vec<(String, u64)> = Vec::new();
        aliases.push(("NULL_TYPE".to_owned(), NULL_TYPE));
        aliases.push(("SCALAR".to_owned(), SCALAR));
        aliases.push(("METER".to_owned(), METER));
        aliases.push(("KILOGRAM".to_owned(), KILOGRAM));
        aliases.push(("SECOND".to_owned(), SECOND));
        aliases.push(("BIT".to_owned(), BIT));
        let r = TypeRegistry { aliases, bridges: Vec::new(), next_auto_id: FIRST_USER_TYPE };
        proof {
            reveal_strlit("NULL_TYPE");
            reveal_strlit("SCALAR");
            reveal_strlit("METER");
            reveal_strlit("KILOGRAM");
            reveal_strlit("SECOND");
            reveal_strlit("BIT");
            let s = r.aliases@;
            assert(s[0].0@ == "NULL_TYPE"@ && s[1].0@ == "SCALAR"@ && s[2].0@ == "METER"@);
            assert(s[3].0@ == "KILOGRAM"@ && s[4].0@ == "SECOND"@ && s[5].0@ == "BIT"@);
            assert(s[0].0@.len() == 9 && s[1].0@.len() == 6 && s[2].0@.len() == 5);
            assert(s[3].0@.len() == 8 && s[4].0@.len() == 6 && s[5].0@.len() == 3);
            assert(s[0].0@ != s[1].0@ && s[0].0@ != s[2].0@ && s[0].0@ != s[3].0@ && s[0].0@ != s[4].0@
                && s[0].0@ != s[5].0@);
            assert(s[1].0@[1] != s[4].0@[1]);
            assert(s[1].0@ != s[2].0@ && s[1].0@ != s[3].0@ && s[1].0@ != s[4].0@ && s[1].0@ != s[5].0@);
            assert(s[2].0@ != s[3].0@ && s[2].0@ != s[4].0@ && s[2].0@ != s[5].0@);
            assert(s[3].0@ != s[4].0@ && s[3].0@ != s[5].0@);
            assert(s[4].0@ != s[5].0@);
            assert(keys_distinct(s, alias_key()));
            let m = assoc(s, alias_key(), alias_val());
            let s5 = s.drop_last();
            let s4 = s5.drop_last();
            let s3 = s4.drop_last();
            let s2 = s3.drop_last();
            let s1 = s2.drop_last();
            let s0 = s1.drop_last();
            assert(s0 =~= Seq::<(String, u64)>::empty());
            assert(assoc(s0, alias_key(), alias_val()) == Map::<Seq<char>, u64>::empty());
            assert(assoc(s1, alias_key(), alias_val()) == Map::<Seq<char>, u64>::empty().insert("NULL_TYPE"@, NULL_TYPE));
            assert(assoc(s2, alias_key(), alias_val()) == assoc(s1, alias_key(), alias_val()).insert("SCALAR"@, SCALAR));
            assert(assoc(s3, alias_key(), alias_val()) == assoc(s2, alias_key(), alias_val()).insert("METER"@, METER));
            assert(assoc(s4, alias_key(), alias_val()) == assoc(s3, alias_key(), alias_val()).insert("KILOGRAM"@, KILOGRAM));
            assert(assoc(s5, alias_key(), alias_val()) == assoc(s4, alias_key(), alias_val()).insert("SECOND"@, SECOND));
            assert(m == assoc(s5, alias_key(), alias_val()).insert("BIT"@, BIT));
            assert(m =~= builtin_aliases());
            assert(r.bridges@ =~= Seq::<BridgeEntry<T>>::empty());
            assert(r@.bridges =~= Map::<(u64, u64), (Op, T)>::empty());
        }
        r
    }

    fn find_alias(&self, alias: &String) -> (r: Option<usize>)
        requires
            self.wf(),
        ensures
            r is None <==> !self@.aliases.contains_key(alias@),
            r matches Some(i) ==> i < self.aliases@.len() && self.aliases@[i as int].0@ == alias@
                && self@.aliases[alias@] == self.aliases@[i as int].1,
    {
        proof { lemma_assoc(self.aliases@, alias_key(), alias_val()); }
        let mut i: usize = 0;
        while i < self.aliases.len()
            invariant
                self.wf(),
                i <= self.aliases@.len(),
                forall|j: int| 0 <= j < i ==> self.aliases@[j].0@ != alias@,
            decreases self.aliases@.len() - i,
        {
            if self.aliases[i].0 == *alias {
                proof {
                    lemma_assoc(self.aliases@, alias_key(), alias_val());
                    assert(alias_key()(self.aliases@[i as int]) == alias@);
                }
                return Some(i);
            }
            i = i + 1;
        }
        proof {
            if self@.aliases.contains_key(alias@) {
                let j = choose|j: int| 0 <= j < self.aliases@.len() && alias_key()(self.aliases@[j]) == alias@;
                assert(self.aliases@[j].0@ == alias@);
            }
        }
        None
    }

    fn find_id(&self, id: u64) -> (r: bool)
        requires
            self.wf(),
        ensures
            r == id_in_use(self@, id),
    {
        proof { lemma_assoc(self.aliases@, alias_key(), alias_val()); }
        let mut i: usize = 0;
        while i < self.aliases.len()
            invariant
                self.wf(),
                i <= self.aliases@.len(),
                forall|j: int| 0 <= j < i ==> self.aliases@[j].1 != id,
            decreases self.aliases@.len() - i,
        {
            if self.aliases[i].1 == id {
                proof {
                    lemma_assoc(self.aliases@, alias_key(), alias_val());
                    let a = alias_key()(self.aliases@[i as int]);
                    assert(self@.aliases.contains_key(a) && self@.aliases[a] == id);
                }
                return true;
            }
            i = i + 1;
        }
        proof {
            assert forall|a: Seq<char>| #[trigger] self@.aliases.contains_key(a) implies self@.aliases[a] != id by {
                let j = choose|j: int| 0 <= j < self.aliases@.len() && alias_key()(self.aliases@[j]) == a;
                assert(self@.aliases[alias_key()(self.aliases@[j])] == alias_val()(self.aliases@[j]));
            }
        }
        false
    }

    /// Defines a new alias under the next automatic identifier and returns
    /// that identifier; an alias already defined is refused.
    pub fn define(&mut self, alias: &str) -> (r: Result<u64, NexusError>)
        requires
            old(self).wf(),
            old(self)@.aliases.contains_key(alias@) || old(self)@.next_auto_id < u64::MAX,
        ensures
            final(self).wf(),
            old(self)@.aliases.contains_key(alias@) ==> final(self)@ == old(self)@
                && (r matches Err(NexusError::TypeAlreadyExists(name)) && name@ == alias@),
            !old(self)@.aliases.contains_key(alias@) ==> final(self)@ == after_define(old(self)@, alias@)
                && r == Ok::<u64, NexusError>(old(self)@.next_auto_id),
            r matches Ok(id) ==> id >= FIRST_USER_TYPE && !id_in_use(old(self)@, id) && forall|a: Seq<char>|
                #[trigger] old(self)@.aliases.contains_key(a) ==> old(self)@.aliases[a] < id,
    {
        let name = alias.to_owned();
        if self.find_alias(&name).is_some() {
            return Err(NexusError::TypeAlreadyExists(name));
        }
        let id = self.next_auto_id;
        let ghost old_view = self@;
        proof { lemma_assoc_push(self.aliases@, (name, id), alias_key(), alias_val()); }
        self.next_auto_id = id + 1;
        self.aliases.push((name, id));
        proof {
            assert(self@.aliases == old_view.aliases.insert(alias@, id));
            assert(self@.bridges == old_view.bridges);
            assert forall|a: Seq<char>| #[trigger] self@.aliases.contains_key(a) implies self@.aliases[a] < self@.next_auto_id by {
                if a != alias@ {
                    assert(old_view.aliases.contains_key(a));
                }
            }
            assert(self@ == after_define(old_view, alias@));
        }
        Ok(id)
    }

    /// Defines a new alias under the given identifier; an alias already
    /// defined, or an identifier that an alias already names, is refused.
    /// The automatic counter moves past `id`.
    pub fn define_explicit(&mut self, alias: &str, id: u64) -> (r: Result<(), NexusError>)
        requires
            old(self).wf(),
            old(self)@.aliases.contains_key(alias@) || id_in_use(old(self)@, id) || id < u64::MAX || id
                < old(self)@.next_auto_id,
        ensures
            final(self).wf(),
            old(self)@.aliases.contains_key(alias@) || id_in_use(old(self)@, id) ==> final(self)@ == old(self)@
                && (r matches Err(NexusError::TypeAlreadyExists(name)) && name@ == alias@),
            !old(self)@.aliases.contains_key(alias@) && !id_in_use(old(self)@, id) ==> final(self)@
                == after_define_explicit(old(self)@, alias@, id) && r is Ok,
    {
        let name = alias.to_owned();
        if self.find_alias(&name).is_some() || self.find_id(id) {
            return Err(NexusError::TypeAlreadyExists(name));
        }
        let ghost old_view = self@;
        if id >= self.next_auto_id {
            self.next_auto_id = id + 1;
        }
        proof { lemma_assoc_push(self.aliases@, (name, id), alias_key(), alias_val()); }
        self.aliases.push((name, id));
        proof {
            assert(self@.aliases == old_view.aliases.insert(alias@, id));
            assert(self@.bridges == old_view.bridges);
            assert forall|a: Seq<char>| #[trigger] self@.aliases.contains_key(a) implies self@.aliases[a] < self@.next_auto_id by {
                if a != alias@ {
                    assert(old_view.aliases.contains_key(a));
                }
            }
            assert(self@ == after_define_explicit(old_view, alias@, id));
        }
        Ok(())
    }

    /// The identifier an alias names.
    pub fn get(&self, alias: &str) -> (r: Result<u64, NexusError>)
        requires
            self.wf(),
        ensures
            self@.aliases.contains_key(alias@) ==> r == Ok::<u64, NexusError>(self@.aliases[alias@]),
            !self@.aliases.contains_key(alias@) ==> (r matches Err(NexusError::TypeNotFound(name)) && name@ == alias@),
    {
        let name = alias.to_owned();
        match self.find_alias(&name) {
            Some(i) => Ok(self.aliases[i].1),
            None => Err(NexusError::TypeNotFound(name)),
        }
    }

    fn find_bridge(&self, from: u64, to: u64) -> (r: Option<usize>)
        requires
            self.wf(),
        ensures
            r is None <==> !self@.bridges.contains_key((from, to)),
            r matches Some(i) ==> i < self.bridges@.len() && self.bridges@[i as int].from == from
                && self.bridges@[i as int].to == to
                && self@.bridges[(from, to)] == (self.bridges@[i as int].op, self.bridges@[i as int].factor),
    {
        let mut i: usize = 0;
        while i < self.bridges.len()
            invariant
                self.wf(),
                i <= self.bridges@.len(),
                forall|j: int| 0 <= j < i ==> (self.bridges@[j].from, self.bridges@[j].to) != (from, to),
            decreases self.bridges@.len() - i,
        {
            if self.bridges[i].from == from && self.bridges[i].to == to {
                proof {
                    lemma_assoc(self.bridges@, bridge_key(), bridge_val());
                    assert(bridge_key()(self.bridges@[i as int]) == (from, to));
                }
                return Some(i);
            }
            i = i + 1;
        }
        proof {
            lemma_assoc(self.bridges@, bridge_key::<T>(), bridge_val::<T>());
            if self@.bridges.contains_key((from, to)) {
                let j = choose|j: int| 0 <= j < self.bridges@.len() && bridge_key()(self.bridges@[j]) == (from, to);
                assert((self.bridges@[j].from, self.bridges@[j].to) == (from, to));
            }
        }
        None
    }

    /// Registers (or replaces) the bridge from `from` to `to`.
    pub fn bridge(&mut self, from: u64, to: u64, op: Op, factor: T)
        requires
            old(self).wf(),
        ensures
            final(self).wf(),
            final(self)@ == (RegistryModel {
                bridges: old(self)@.bridges.insert((from, to), (op, factor)),
                ..old(self)@
            }),
    {
        let e = BridgeEntry { from, to, op, factor };
        let ghost old_view = self@;
        match self.find_bridge(from, to) {
            Some(i) => {
                proof { lemma_assoc_update(self.bridges@, i as int, e, bridge_key(), bridge_val()); }
                self.bridges.set(i, e);
            },
            None => {
                proof { lemma_assoc_push(self.bridges@, e, bridge_key(), bridge_val()); }
                self.bridges.push(e);
            },
        }
        proof {
            assert(self@.aliases == old_view.aliases);
            assert(self@.bridges == old_view.bridges.insert((from, to), (op, factor)));
        }
    }

    /// The bridge from `from` to `to`, if one is registered.
    pub fn get_bridge(&self, from: u64, to: u64) -> (r: Option<(Op, T)>)
        requires
            self.wf(),
        ensures
            r == (if self@.bridges.contains_key((from, to)) {
                Some(self@.bridges[(from, to)])
            } else {
                None
            }),
    {
        match self.find_bridge(from, to) {
            Some(i) => Some((self.bridges[i].op, self.bridges[i].factor)),
            None => None,
        }
    }
}


/// Appends an alias entry.
fn push_alias(out: &mut String, e: &(String, u64))
    ensures
        final(out)@ == old(out)@ + alias_text(alias_entry_view()(*e)),
{
    let ghost start = out@;
    push_char(out, '[');
    push_quoted_str(out, e.0.as_str());
    push_char(out, ',');
    push_decimal(out, e.1);
    push_char(out, ']');
    assert(out@ =~= start + alias_text(alias_entry_view()(*e)));
}

/// Appends a JSON list of alias entries.
fn push_alias_list(out: &mut String, v: &Vec<(String, u64)>)
    ensures
        final(out)@ == old(out)@ + alias_list_text(v@.map_values(alias_entry_view())),
{
    let ghost items = (v@.map_values(alias_entry_view())).map_values(alias_fn());
    let ghost start = out@;
    push_char(out, '[');
    let mut i: usize = 0;
    while i < v.len()
        invariant
            i <= v@.len(),
            (v@.map_values(alias_entry_view())).len() == v@.len(),
            items == (v@.map_values(alias_entry_view())).map_values(alias_fn()),
            out@ == start + seq!['['] + joined(items.take(i as int)),
        decreases v@.len() - i,
    {
        proof {
            lemma_joined_step(items, i as int);
        }
        let ghost before = out@;
        if i > 0 {
            push_char(out, ',');
        }
        push_alias(out, &v[i]);
        proof {
            if i == 0 {
                assert(out@ =~= start + seq!['['] + joined(items.take(i + 1)));
            } else {
                assert(out@ =~= start + seq!['['] + joined(items.take(i + 1)));
            }
        }
        i = i + 1;
    }
    proof {
        assert(items.take(i as int) =~= items);
    }
    push_char(out, ']');
    assert(out@ =~= start + alias_list_text(v@.map_values(alias_entry_view())));
}

/// Appends a bridge entry.
fn push_bridge_entry(out: &mut String, e: &BridgeEntry<u64>)
    ensures
        final(out)@ == old(out)@ + crate::snapshot::bridge_text((e.from, e.to, e.op, e.factor)),
{
    push_bridge(out, &(e.from, e.to, e.op, e.factor));
}

/// Appends a JSON list of bridge entries.
fn push_bridge_list(out: &mut String, v: &Vec<BridgeEntry<u64>>)
    ensures
        final(out)@ == old(out)@ + bridge_list_text(v@.map_values(bridge_entry_view::<u64>())),
{
    let ghost items = (v@.map_values(bridge_entry_view::<u64>())).map_values(bridge_fn());
    let ghost start = out@;
    push_char(out, '[');
    let mut i: usize = 0;
    while i < v.len()
        invariant
            i <= v@.len(),
            (v@.map_values(bridge_entry_view::<u64>())).len() == v@.len(),
            items == (v@.map_values(bridge_entry_view::<u64>())).map_values(bridge_fn()),
            out@ == start + seq!['['] + joined(items.take(i as int)),
        decreases v@.len() - i,
    {
        proof {
            lemma_joined_step(items, i as int);
        }
        let ghost before = out@;
        if i > 0 {
            push_char(out, ',');
        }
        push_bridge_entry(out, &v[i]);
        proof {
            if i == 0 {
                assert(out@ =~= start + seq!['['] + joined(items.take(i + 1)));
            } else {
                assert(out@ =~= start + seq!['['] + joined(items.take(i + 1)));
            }
        }
        i = i + 1;
    }
    proof {
        assert(items.take(i as int) =~= items);
    }
    push_char(out, ']');
    assert(out@ =~= start + bridge_list_text(v@.map_values(bridge_entry_view::<u64>())));
}

impl TypeRegistry<u64> {
    /// The registry made of the given alias and bridge entries and counter,
    /// if the entries are valid.
    pub fn from_entries(aliases: &Vec<(Vec<char>, u64)>, bridges: &Vec<(u64, u64, Op, u64)>, next: u64) -> (r: Option<Self>)
        ensures
            r is Some <==> registry_entries_ok(views(aliases@), views(bridges@), next),
            r matches Some(g) ==> g.wf() && g.alias_entries() == views(aliases@) && g.bridge_entries() == views(bridges@)
                && g@.next_auto_id == next,
    {
        if next < FIRST_USER_TYPE {
            return None;
        }
        let mut g: TypeRegistry<u64> = TypeRegistry { aliases: Vec::new(), bridges: Vec::new(), next_auto_id: next };
        let ghost va = views(aliases@);
        let ghost vb = views(bridges@);
        proof {
            assert(g.alias_entries() =~= va.take(0));
            assert(g.bridges@ =~= Seq::<BridgeEntry<u64>>::empty());
            assert(g@.aliases =~= Map::<Seq<char>, u64>::empty());
        }
        let mut i: usize = 0;
        while i < aliases.len()
            invariant
                i <= aliases@.len(),
                va == views(aliases@),
                vb == views(bridges@),
                g.wf(),
                g.next_auto_id == next,
                g.bridges@.len() == 0,
                g.alias_entries() == va.take(i as int),
                keys_distinct(va.take(i as int), alias_name::<u64>()),
                forall|j: int| 0 <= j < i ==> #[trigger] va[j].1 < next,
            decreases aliases@.len() - i,
        {
            let name = string_from_chars(&aliases[i].0);
            let id = aliases[i].1;
            proof {
                lemma_assoc(g.aliases@, alias_key(), alias_val());
                assert(va[i as int] == (name@, id));
            }
            if g.find_alias(&name).is_some() {
                proof {
                    let j = choose|j: int| 0 <= j < g.aliases@.len() && alias_key()(g.aliases@[j]) == name@;
                    assert(g.alias_entries().len() == i);
                    assert(va.take(i as int)[j] == va[j]);
                    assert(g.alias_entries()[j] == va[j]);
                    assert(alias_name::<u64>()(va[j]) == alias_name::<u64>()(va[i as int]));
                }
                return None;
            }
            if id >= next {
                proof {
                    assert(va[i as int].1 >= next);
                }
                return None;
            }
            let ghost old_g = g;
            proof {
                lemma_assoc_push(g.aliases@, (name, id), alias_key(), alias_val());
            }
            g.aliases.push((name, id));
            proof {
                assert(g.aliases@ == old_g.aliases@.push((name, id)));
                assert(old_g.aliases@.len() == old_g.alias_entries().len());
                assert(va.take(i as int).len() == i);
                assert forall|j: int| 0 <= j < i implies #[trigger] g.alias_entries()[j] == va.take(i + 1)[j] by {
                    assert(g.aliases@[j] == old_g.aliases@[j]);
                    assert(old_g.alias_entries()[j] == va.take(i as int)[j]);
                }
                assert(g.alias_entries()[i as int] == va[i as int]);
                assert(g.alias_entries() =~= va.take(i + 1));
                assert forall|a: int, b: int| #![trigger va.take(i + 1)[a], va.take(i + 1)[b]] 0 <= a < i + 1 && 0 <= b < i + 1 && a != b implies alias_name::<u64>()(
                    va.take(i + 1)[a],
                ) != alias_name::<u64>()(va.take(i + 1)[b]) by {
                    if a < i && b < i {
                        assert(va.take(i as int)[a] == va[a] && va.take(i as int)[b] == va[b]);
                    } else if a < i {
                        assert(old_g.alias_entries()[a] == va[a]);
                        assert(old_g@.aliases.contains_key(alias_key()(old_g.aliases@[a])));
                    } else {
                        assert(old_g.alias_entries()[b] == va[b]);
                        assert(old_g@.aliases.contains_key(alias_key()(old_g.aliases@[b])));
                    }
                }
                assert forall|a: Seq<char>| #[trigger] g@.aliases.contains_key(a) implies g@.aliases[a] < g@.next_auto_id by {
                    if a != name@ {
                        assert(old_g@.aliases.contains_key(a));
                    }
                }
            }
            i = i + 1;
        }
        proof {
            assert(va.take(i as int) =~= va);
        }
        let mut k: usize = 0;
        while k < bridges.len()
            invariant
                k <= bridges@.len(),
                va == views(aliases@),
                vb == views(bridges@),
                g.wf(),
                g.next_auto_id == next,
                g.alias_entries() == va,
                keys_distinct(va, alias_name::<u64>()),
                forall|j: int| 0 <= j < va.len() ==> #[trigger] va[j].1 < next,
                g.bridge_entries() == vb.take(k as int),
                keys_distinct(vb.take(k as int), bridge_ends::<u64>()),
            decreases bridges@.len() - k,
        {
            let (from, to, op, factor) = bridges[k];
            proof {
                lemma_assoc(g.bridges@, bridge_key::<u64>(), bridge_val::<u64>());
                assert(vb[k as int] == (from, to, op, factor));
            }
            if g.find_bridge(from, to).is_some() {
                proof {
                    let j = choose|j: int| 0 <= j < g.bridges@.len() && bridge_key::<u64>()(g.bridges@[j]) == (from, to);
                    assert(g.bridge_entries().len() == k);
                    assert(vb.take(k as int)[j] == vb[j]);
                    assert(g.bridge_entries()[j] == vb[j]);
                    assert(bridge_ends::<u64>()(vb[j]) == bridge_ends::<u64>()(vb[k as int]));
                }
                return None;
            }
            let e = BridgeEntry { from, to, op, factor };
            let ghost old_g = g;
            proof {
                lemma_assoc_push(g.bridges@, e, bridge_key::<u64>(), bridge_val::<u64>());
            }
            g.bridges.push(e);
            proof {
                assert(g.bridges@ == old_g.bridges@.push(e));
                assert(old_g.bridges@.len() == old_g.bridge_entries().len());
                assert(vb.take(k as int).len() == k);
                assert forall|j: int| 0 <= j < k implies #[trigger] g.bridge_entries()[j] == vb.take(k + 1)[j] by {
                    assert(g.bridges@[j] == old_g.bridges@[j]);
                    assert(old_g.bridge_entries()[j] == vb.take(k as int)[j]);
                }
                assert(g.bridge_entries()[k as int] == vb[k as int]);
                assert(g.bridge_entries() =~= vb.take(k + 1));
                assert(g.alias_entries() == old_g.alias_entries());
                assert(g@.aliases == old_g@.aliases);
                assert forall|a: int, b: int| #![trigger vb.take(k + 1)[a], vb.take(k + 1)[b]] 0 <= a < k + 1 && 0 <= b < k + 1 && a != b implies bridge_ends::<u64>()(
                    vb.take(k + 1)[a],
                ) != bridge_ends::<u64>()(vb.take(k + 1)[b]) by {
                    if a < k && b < k {
                        assert(vb.take(k as int)[a] == vb[a] && vb.take(k as int)[b] == vb[b]);
                    } else if a < k {
                        assert(old_g.bridge_entries()[a] == vb[a]);
                        assert(old_g@.bridges.contains_key(bridge_key::<u64>()(old_g.bridges@[a])));
                    } else {
                        assert(old_g.bridge_entries()[b] == vb[b]);
                        assert(old_g@.bridges.contains_key(bridge_key::<u64>()(old_g.bridges@[b])));
                    }
                }
            }
            k = k + 1;
        }
        proof {
            assert(vb.take(k as int) =~= vb);
        }
        Some(g)
    }

    /// Appends the bridge entries as a JSON list.
    pub fn write_bridges(&self, out: &mut String)
        ensures
            final(out)@ == old(out)@ + bridge_list_text(self.bridge_entries()),
    {
        push_bridge_list(out, &self.bridges);
    }
}

} // verus!

verus! {

impl<T: Copy> Default for TypeRegistry<T> {
    /// The same registry as `new`.
    fn default() -> (r: Self)
        ensures
            r.wf(),
            r@ == initial_registry::<T>(),
    {
        Self::new()
    }
}

/// Defining an alias and then reading it gives the identifier that the
/// definition returned, and leaves every other alias as it was.
pub proof fn law_define_then_get<T>(m: RegistryModel<T>, alias: Seq<char>, other: Seq<char>)
    requires
        !m.aliases.contains_key(alias),
        other != alias,
    ensures
        after_define(m, alias).aliases.contains_key(alias),
        after_define(m, alias).aliases[alias] == m.next_auto_id,
        after_define(m, alias).aliases.contains_key(other) == m.aliases.contains_key(other),
        m.aliases.contains_key(other) ==> after_define(m, alias).aliases[other] == m.aliases[other],
{
}

/// Two automatic definitions in a row hand out consecutive identifiers.
pub proof fn law_auto_ids_consecutive<T>(m: RegistryModel<T>, a: Seq<char>, b: Seq<char>)
    requires
        !m.aliases.contains_key(a),
        a != b,
        !m.aliases.contains_key(b),
        m.next_auto_id + 1 < u64::MAX,
    ensures
        after_define(after_define(m, a), b).aliases[b] == after_define(m, a).aliases[a] + 1,
{
}

/// An automatic definition never hands out an identifier that an alias
/// already names, and the counter stays above every identifier in use after
/// either kind of definition.
pub proof fn law_auto_id_is_fresh<T>(m: RegistryModel<T>, alias: Seq<char>, id: u64)
    requires
        ids_below_counter(m),
        !m.aliases.contains_key(alias),
        m.next_auto_id < u64::MAX,
        id < u64::MAX,
    ensures
        forall|a: Seq<char>| #[trigger] m.aliases.contains_key(a) ==> m.aliases[a] != m.next_auto_id,
        ids_below_counter(after_define(m, alias)),
        ids_below_counter(after_define_explicit(m, alias, id)),
{
    let m1 = after_define(m, alias);
    assert forall|a: Seq<char>| #[trigger] m1.aliases.contains_key(a) implies m1.aliases[a] < m1.next_auto_id by {
        if a != alias {
            assert(m.aliases.contains_key(a));
        }
    }
    let m2 = after_define_explicit(m, alias, id);
    assert forall|a: Seq<char>| #[trigger] m2.aliases.contains_key(a) implies m2.aliases[a] < m2.next_auto_id by {
        if a != alias {
            assert(m.aliases.contains_key(a));
        }
    }
}

/// After an explicit definition with identifier `id`, the next automatic
/// definition hands out an identifier above `id`: `id + 1` when `id` was
/// at or above the counter.
pub proof fn law_explicit_id_moves_counter<T>(m: RegistryModel<T>, alias: Seq<char>, id: u64)
    requires
        !m.aliases.contains_key(alias),
        id < u64::MAX,
    ensures
        after_define_explicit(m, alias, id).next_auto_id > id,
        after_define_explicit(m, alias, id).next_auto_id >= m.next_auto_id,
        id >= m.next_auto_id ==> after_define_explicit(m, alias, id).next_auto_id == id + 1,
        after_define_explicit(m, alias, id).aliases[alias] == id,
{
}

} // verus!
